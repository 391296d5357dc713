use std::collections::BTreeSet;

use polonius::facts::Point;
use polonius::intern::InternerTables;
use polonius::ir::Placeholder;
use polonius::program::parse_from_program;

#[test]
fn complete_program() {
    let program = r"
        // program description
        placeholders { 'a, 'b, 'c }

        // block description
        block B0 {
            // 0:
            loan_invalidated_at(L0);

            // 1:
            loan_invalidated_at(L1), origin_live_on_entry('d) / loan_killed_at(L2);

            // another comment
            goto B1;
        }

        block B1 {
            // O:
            use('a, 'b), outlives('a: 'b), loan_issued_at('b, L1);
        }
    ";

    let mut tables = InternerTables::new();

    let facts = parse_from_program(program, &mut tables);
    assert!(facts.is_ok());

    let facts = facts.unwrap();

    // facts: universal_region
    let universal_regions: Vec<_> = facts
        .universal_region
        .iter()
        .map(|origin| tables.origins.untern(*origin))
        .collect();
    assert_eq!(universal_regions, ["'a", "'b", "'c"]);

    // facts: placeholder
    let placeholders: Vec<_> = facts
        .placeholder
        .iter()
        .map(|&(origin, loan)| Placeholder {
            origin: tables.origins.untern(origin).to_string(),
            loan: tables.loans.untern(loan).to_string(),
        })
        .collect();

    assert_eq!(
        placeholders,
        vec![
            Placeholder {
                origin: "'a".to_string(),
                loan: "'a".to_string(),
            },
            Placeholder {
                origin: "'b".to_string(),
                loan: "'b".to_string(),
            },
            Placeholder {
                origin: "'c".to_string(),
                loan: "'c".to_string(),
            },
        ]
    );

    // facts: loan_invalidated_at
    assert_eq!(facts.loan_invalidated_at.len(), 2);
    {
        // regular mid point `loan_invalidated_at`
        let point = tables.points.untern(facts.loan_invalidated_at[0].0);
        let loan = tables.loans.untern(facts.loan_invalidated_at[0].1);

        assert_eq!(point, "\"Mid(B0[0])\"");
        assert_eq!(loan, "L0");
    }

    {
        // uncommon start point `loan_invalidated_at`
        let point = tables.points.untern(facts.loan_invalidated_at[1].0);
        let loan = tables.loans.untern(facts.loan_invalidated_at[1].1);

        assert_eq!(point, "\"Start(B0[1])\"");
        assert_eq!(loan, "L1");
    }

    assert_eq!(facts.subset_base.len(), 1);
    {
        let origin_a = tables.origins.untern(facts.subset_base[0].0);
        let origin_b = tables.origins.untern(facts.subset_base[0].1);
        let point = tables.points.untern(facts.subset_base[0].2);

        assert_eq!(origin_a, "'a");
        assert_eq!(origin_b, "'b");
        assert_eq!(point, "\"Mid(B1[0])\"");
    }

    assert_eq!(facts.loan_issued_at.len(), 1);
    {
        let origin = tables.origins.untern(facts.loan_issued_at[0].0);
        let loan = tables.loans.untern(facts.loan_issued_at[0].1);
        let point = tables.points.untern(facts.loan_issued_at[0].2);

        assert_eq!(origin, "'b");
        assert_eq!(loan, "L1");
        assert_eq!(point, "\"Mid(B1[0])\"");
    }

    assert_eq!(facts.loan_killed_at.len(), 1);
    {
        let loan = tables.loans.untern(facts.loan_killed_at[0].0);
        let point = tables.points.untern(facts.loan_killed_at[0].1);

        assert_eq!(loan, "L2");
        assert_eq!(point, "\"Mid(B0[1])\"");
    }

    // 6 points (3 statements * 2 points) => 5 edges, including the 1 goto edge
    let points: BTreeSet<Point> = facts
        .cfg_edge
        .iter()
        .map(|&(point1, _)| point1)
        .chain(facts.cfg_edge.iter().map(|&(_, point2)| point2))
        .collect();
    assert_eq!(points.len(), 6);
    assert_eq!(facts.cfg_edge.len(), 5);

    let mut make_edge = |a, b| (tables.points.intern(a), tables.points.intern(b));

    // Start to Mid edge, per statement
    assert!(facts
        .cfg_edge
        .contains(&make_edge("\"Start(B0[0])\"", "\"Mid(B0[0])\"")));
    assert!(facts
        .cfg_edge
        .contains(&make_edge("\"Start(B0[1])\"", "\"Mid(B0[1])\"")));
    assert!(facts
        .cfg_edge
        .contains(&make_edge("\"Start(B1[0])\"", "\"Mid(B1[0])\"")));

    // Mid to Start edge, per statement pair for each block
    assert!(facts
        .cfg_edge
        .contains(&make_edge("\"Mid(B0[0])\"", "\"Start(B0[1])\"")));

    // 1 goto edge from B0 to B1
    assert!(facts
        .cfg_edge
        .contains(&make_edge("\"Mid(B0[1])\"", "\"Start(B1[0])\"")));
}
