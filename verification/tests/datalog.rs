use polonius::datalog::{clean_program, parse};
use polonius::skeleton::generate_skeleton_datafrog;

#[test]
fn parse_valid_datalog() {
    let program = parse("p(x, y) :- e(x, y). p(x, z) :- e(x, y), p(y, z).");
    assert_eq!("p(x, y) :- e(x, y).", program[0].to_string());
    assert_eq!("p(x, z) :- e(x, y), p(y, z).", program[1].to_string());
}

#[test]
fn parse_multiline_datalog() {
    let text = r#"
        subset(O1, O2, P)    :- outlives(O1, O2, P).
        subset(O1, O3, P)    :- subset(O1, O2, P), subset(O2, O3, P).
        subset(O1, O2, Q)    :- subset(O1, O2, P), cfg_edge(P, Q), region_live_at(O1, Q), region_live_at(O2, Q).
        requires(O, L, P)    :- borrow_region(O, L, P).
        requires(O2, L, P)   :- requires(O1, L, P), subset(O1, O2, P).
        requires(O, L, Q)    :- requires(O, L, P), !killed(L, P), cfg_edge(P, Q), region_live_at(O, Q).
        borrow_live_at(L, P) :- requires(O, L, P), region_live_at(O, P).
        errors(L, P)         :- invalidates(L, P), borrow_live_at(L, P)."#;

    let program = parse(text);
    let serialized = program
        .into_iter()
        .map(|rule| rule.to_string())
        .collect::<Vec<_>>()
        .join("\n");

    let expected = r#"subset(O1, O2, P) :- outlives(O1, O2, P).
subset(O1, O3, P) :- subset(O1, O2, P), subset(O2, O3, P).
subset(O1, O2, Q) :- subset(O1, O2, P), cfg_edge(P, Q), region_live_at(O1, Q), region_live_at(O2, Q).
requires(O, L, P) :- borrow_region(O, L, P).
requires(O2, L, P) :- requires(O1, L, P), subset(O1, O2, P).
requires(O, L, Q) :- requires(O, L, P), !killed(L, P), cfg_edge(P, Q), region_live_at(O, Q).
borrow_live_at(L, P) :- requires(O, L, P), region_live_at(O, P).
errors(L, P) :- invalidates(L, P), borrow_live_at(L, P)."#;
    assert_eq!(expected, serialized);
}

#[test]
fn parse_multiline_datalog_with_comments() {
    let text = r#"
        // `subset` rules
        subset(O1, O2, P) :- outlives(O1, O2, P).

        subset(O1, O3, P) :- subset(O1, O2, P),
                               subset(O2, O3, P).
        subset(O1, O2, Q) :-
          subset(O1, O2, P),
          cfg_edge(P, Q),
          region_live_at(O1, Q),
          region_live_at(O2, Q).

        // `requires` rules
        requires(O, L, P) :- borrow_region(O, L, P).

        requires(O2, L, P) :-
          requires(O1, L, P),subset(O1, O2, P).

        requires(O, L, Q) :-
          requires(O, L, P),
                   !killed(L, P),    cfg_edge(P, Q),
region_live_at(O, Q).

        // this one is commented out, nope(N, O, P, E) :- open(O, P, E, N).

        borrow_live_at(L, P) :-
          requires(O, L, P),
          region_live_at(O, P).

        errors(L, P) :-
          invalidates(L, P),
          borrow_live_at(L, P)."#;

    let program = clean_program(text.to_string());
    let rules = parse(&program);

    let serialized = rules
        .into_iter()
        .map(|rule| rule.to_string())
        .collect::<Vec<_>>()
        .join("\n");

    let expected = r#"subset(O1, O2, P) :- outlives(O1, O2, P).
subset(O1, O3, P) :- subset(O1, O2, P), subset(O2, O3, P).
subset(O1, O2, Q) :- subset(O1, O2, P), cfg_edge(P, Q), region_live_at(O1, Q), region_live_at(O2, Q).
requires(O, L, P) :- borrow_region(O, L, P).
requires(O2, L, P) :- requires(O1, L, P), subset(O1, O2, P).
requires(O, L, Q) :- requires(O, L, P), !killed(L, P), cfg_edge(P, Q), region_live_at(O, Q).
borrow_live_at(L, P) :- requires(O, L, P), region_live_at(O, P).
errors(L, P) :- invalidates(L, P), borrow_live_at(L, P)."#;
    assert_eq!(expected, serialized);
}

#[test]
fn generate_naive_rules() {
    let decls = r#"
            .decl borrow_region(O: Origin, L: Loan, P: Point)
            .decl cfg_edge(P: Point, Q: Point)
            .decl killed(L: Loan, P: Point)
            .decl outlives(O1: Origin, O2: Origin, P: Point)
            .decl region_live_at(O: Origin, P: Point)
            .decl subset(O1: Origin, O2: Origin, P: Point)
            .decl requires(O: Origin, L: Loan, P: Point)
            .decl borrow_live_at(L: Loan, P: Point)
            .decl invalidates(L: Loan, P: Point)
            .decl errors(L: Loan, P: Point)
        "#;

    let rules = r#"
            subset(O1, O2, P)    :- outlives(O1, O2, P).
            subset(O1, O3, P)    :- subset(O1, O2, P), subset(O2, O3, P).
            subset(O1, O2, Q)    :- subset(O1, O2, P), cfg_edge(P, Q), region_live_at(O1, Q), region_live_at(O2, Q).
            requires(O, L, P)    :- borrow_region(O, L, P).
            requires(O2, L, P)   :- requires(O1, L, P), subset(O1, O2, P).
            requires(O, L, Q)    :- requires(O, L, P), !killed(L, P), cfg_edge(P, Q), region_live_at(O, Q).
            borrow_live_at(L, P) :- requires(O, L, P), region_live_at(O, P).
            errors(L, P)         :- borrow_live_at(L, P), invalidates(L, P).
        "#;

    let mut output = String::new();
    let _report = generate_skeleton_datafrog(decls, rules, &mut output);

    let expected = r#"
// Extensional predicates, and their indices

let borrow_region: Relation<(Origin, Loan, Point)> = Vec::new().into();

// Note: `cfg_edge_p` is an indexed version of the input facts `cfg_edge`
let cfg_edge_p: Relation<(Point, Point)> = Vec::new().into();

let invalidates: Relation<((Loan, Point), ())> = Vec::new().into();
let killed: Relation<(Loan, Point)> = Vec::new().into();
let outlives: Relation<(Origin, Origin, Point)> = Vec::new().into();
let region_live_at: Relation<((Origin, Point), ())> = Vec::new().into();

// `errors` inferred as the output relation
let errors = {

let mut iteration = Iteration::new();
// Intensional predicates, and their indices

let borrow_live_at = iteration.variable::<((Loan, Point), ())>("borrow_live_at");
let errors = iteration.variable::<(Loan, Point)>("errors");
let requires = iteration.variable::<(Origin, Loan, Point)>("requires");

// Note: `requires_lp` is an indexed version of the `requires` relation
let requires_lp = iteration.variable::<((Loan, Point), Origin)>("requires_lp");

// Note: `requires_op` is an indexed version of the `requires` relation
let requires_op = iteration.variable::<((Origin, Point), Loan)>("requires_op");
let requires_step_6_1 = iteration.variable("requires_step_6_1");
let requires_step_6_2 = iteration.variable("requires_step_6_2");
let subset = iteration.variable::<(Origin, Origin, Point)>("subset");

// Note: `subset_o1p` is an indexed version of the `subset` relation
let subset_o1p = iteration.variable::<((Origin, Point), Origin)>("subset_o1p");

// Note: `subset_o2p` is an indexed version of the `subset` relation
let subset_o2p = iteration.variable::<((Origin, Point), Origin)>("subset_o2p");

// Note: `subset_p` is an indexed version of the `subset` relation
let subset_p = iteration.variable::<(Point, (Origin, Origin))>("subset_p");
let subset_step_3_1 = iteration.variable("subset_step_3_1");
let subset_step_3_2 = iteration.variable("subset_step_3_2");

// R01: subset(O1, O2, P) :- outlives(O1, O2, P).
subset.extend(outlives.iter().clone());

// R04: requires(O, L, P) :- borrow_region(O, L, P).
requires.extend(borrow_region.iter().clone());

while iteration.changed() {

    // Index maintenance
    requires_op.from_map(&requires, |&(o, l, p)| ((o, p), l));
    requires_lp.from_map(&requires, |&(o, l, p)| ((l, p), o));
    subset_o2p.from_map(&subset, |&(o1, o2, p)| ((o2, p), o1));
    subset_o1p.from_map(&subset, |&(o1, o2, p)| ((o1, p), o2));
    subset_p.from_map(&subset, |&(o1, o2, p)| (p, (o1, o2)));

    // Rules

    // R01: subset(O1, O2, P) :- outlives(O1, O2, P).
    // `outlives` is a static input, already loaded into `subset`.
    
    // R02: subset(O1, O3, P) :- subset(O1, O2, P), subset(O2, O3, P).
    subset.from_join(&subset_o2p, &subset_o1p, |&(_o2, p), &o1, &o3| (o1, o3, p));
    
    // R03: subset(O1, O2, Q) :- subset(O1, O2, P), cfg_edge(P, Q), region_live_at(O1, Q), region_live_at(O2, Q).
    subset_step_3_1.from_join(&subset_p, &cfg_edge_p, |&_p, &(o1, o2), &q| ((o1, q), o2));
    subset_step_3_2.from_join(&subset_step_3_1, &region_live_at, |&(o1, q), &o2, _| ((o2, q), o1));
    subset.from_join(&subset_step_3_2, &region_live_at, |&(o2, q), &o1, _| (o1, o2, q));
    
    // R04: requires(O, L, P) :- borrow_region(O, L, P).
    // `borrow_region` is a static input, already loaded into `requires`.
    
    // R05: requires(O2, L, P) :- requires(O1, L, P), subset(O1, O2, P).
    requires.from_join(&requires_op, &subset_o1p, |&(_o1, p), &l, &o2| (o2, l, p));
    
    // R06: requires(O, L, Q) :- requires(O, L, P), !killed(L, P), cfg_edge(P, Q), region_live_at(O, Q).
    requires_step_6_1.from_antijoin(&requires_lp, &killed, |&(l, p), &o| (p, (l, o)));
    requires_step_6_2.from_join(&requires_step_6_1, &cfg_edge_p, |&_p, &(l, o), &q| ((o, q), l));
    requires.from_join(&requires_step_6_2, &region_live_at, |&(o, q), &l, _| (o, l, q));
    
    // R07: borrow_live_at(L, P) :- requires(O, L, P), region_live_at(O, P).
    borrow_live_at.from_join(&requires_op, &region_live_at, |&(_o, p), &l, _| ((l, p), ()));
    
    // R08: errors(L, P) :- borrow_live_at(L, P), invalidates(L, P).
    errors.from_join(&borrow_live_at, &invalidates, |&(l, p), _, _| (l, p));
}

errors.complete()
};
"#;
    println!("{}", output);
    assert_eq!(expected, output);
}

#[test]
fn skeleton_report_of_naive_rules() {
    let decls = "
        .decl borrow_region(O: Origin, L: Loan, P: Point)
        .decl cfg_edge(P: Point, Q: Point)
        .decl killed(L: Loan, P: Point)
        .decl outlives(O1: Origin, O2: Origin, P: Point)
        .decl region_live_at(O: Origin, P: Point)
        .decl subset(O1: Origin, O2: Origin, P: Point)
        .decl requires(O: Origin, L: Loan, P: Point)
        .decl borrow_live_at(L: Loan, P: Point)
        .decl invalidates(L: Loan, P: Point)
        .decl errors(L: Loan, P: Point)
    ";
    let rules = "
        subset(O1, O2, P)    :- outlives(O1, O2, P).
        subset(O1, O3, P)    :- subset(O1, O2, P), subset(O2, O3, P).
        subset(O1, O2, Q)    :- subset(O1, O2, P), cfg_edge(P, Q), region_live_at(O1, Q), region_live_at(O2, Q).
        requires(O, L, P)    :- borrow_region(O, L, P).
        requires(O2, L, P)   :- requires(O1, L, P), subset(O1, O2, P).
        requires(O, L, Q)    :- requires(O, L, P), !killed(L, P), cfg_edge(P, Q), region_live_at(O, Q).
        borrow_live_at(L, P) :- requires(O, L, P), region_live_at(O, P).
        errors(L, P)         :- borrow_live_at(L, P), invalidates(L, P).
    ";
    let mut output = String::new();
    let report = generate_skeleton_datafrog(decls, rules, &mut output);
    let expected = "6 extensional predicates/indices used (out of 7) and which can be a datafrog `Relation`:
01: `borrow_region`
02: `cfg_edge_p`
03: `invalidates`
04: `killed`
05: `outlives`
06: `region_live_at`

13 intensional predicates (including 5 indices) requiring a datafrog `Variable`:
01: `borrow_live_at`
02: `errors`
03: `requires`
04: `requires_lp` (index on `requires`)
05: `requires_op` (index on `requires`)
06: `requires_step_6_1`
07: `requires_step_6_2`
08: `subset`
09: `subset_o1p` (index on `subset`)
10: `subset_o2p` (index on `subset`)
11: `subset_p` (index on `subset`)
12: `subset_step_3_1`
13: `subset_step_3_2`
";
    assert_eq!(expected, report);
}

#[test]
fn skeleton_of_a_map_over_a_variable() {
    let decls = "
        .decl e(X: Point, Y: Point)
        .decl p(X: Point, Y: Point)
        .decl q(Y: Point, X: Point)
    ";
    let rules = "
        p(X, Y) :- e(X, Y).
        q(Y, X) :- p(X, Y).
    ";
    let mut output = String::from("// generated\n");
    let report = generate_skeleton_datafrog(decls, rules, &mut output);
    let expected = "// generated

// Extensional predicates, and their indices

let e: Relation<(Point, Point)> = Vec::new().into();

// Note: couldn't infer output relation automatically

let mut iteration = Iteration::new();
// Intensional predicates, and their indices

let p = iteration.variable::<(Point, Point)>(\"p\");
let q = iteration.variable::<(Point, Point)>(\"q\");

// R01: p(X, Y) :- e(X, Y).
p.extend(e.iter().clone());

while iteration.changed() {

    // Index maintenance

    // Rules

    // R01: p(X, Y) :- e(X, Y).
    // `e` is a static input, already loaded into `p`.
    
    // R02: q(Y, X) :- p(X, Y).
    q.from_map(&p, |&(x, y)| (y, x));

}
";
    assert_eq!(expected, output);
    let expected_report = "1 extensional predicates/indices used (out of 1) and which can be a datafrog `Relation`:
01: `e`

2 intensional predicates (including 0 indices) requiring a datafrog `Variable`:
01: `p`
02: `q`
";
    assert_eq!(expected_report, report);
}

#[test]
fn text_form_of_rules_reads_back() {
    let text = "r(A) :- s(A, B), !t(B).\nu(X, Y) :- v(Y, X).";
    let serialized = parse(text)
        .into_iter()
        .map(|rule| rule.to_string())
        .collect::<Vec<_>>()
        .join("\n");
    assert_eq!(serialized, text);
    let again = parse(&serialized)
        .into_iter()
        .map(|rule| rule.to_string())
        .collect::<Vec<_>>()
        .join("\n");
    assert_eq!(again, text);
}
