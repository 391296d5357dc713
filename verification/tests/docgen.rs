use polonius::docgen::{comments_lead_code, datalog_to_markdown};

#[test]
fn sections_become_markdown() {
    let text = "// A comment\n.decl subset(O1: origin)\n\n#include \"x\"\n  // second\ncode(x) :- y(x).\n";
    assert!(comments_lead_code(text));
    let expected = "#### `subset`\n\nA comment\n\n```prolog\n.decl subset(O1: origin)\n```\n\nsecond\n\n```prolog\ncode(x) :- y(x).\n```\n\n";
    assert_eq!(datalog_to_markdown(text), expected);
}

#[test]
fn each_declaration_gets_a_heading() {
    let text = ".type Origin <: symbol\n.decl loan_live_at(L: Loan, P: Point)\n";
    let expected = "#### `loan_live_at`\n\n#### `Origin`\n\n```prolog\n.type Origin <: symbol\n.decl loan_live_at(L: Loan, P: Point)\n```\n\n";
    assert_eq!(datalog_to_markdown(text), expected);
}

#[test]
fn blank_comment_lines_end_no_paragraph() {
    assert_eq!(datalog_to_markdown("// a\n//\n"), "a\n\n");
    assert_eq!(datalog_to_markdown(""), "");
}

#[test]
fn comments_after_code_are_refused() {
    assert!(!comments_lead_code("x :- y.\n// late\n"));
    assert!(comments_lead_code("x :- y.\n\n// next section\n"));
}
