use proplogic::assignment::Assignment;
use proplogic::calculator::SyntaxError;
use proplogic::canonical::{
    calculate_with_assignment, conjunctive_normal_form, disjunctive_normal_form,
    format_truth_table, truth_table, try_calculate_with_assignment, try_truth_table, variables_of,
};
use proplogic::lexer::LexerError;
use proplogic::parser::ParseError;

#[test]
fn test_truth_table() {
    let result = truth_table("((A ∧ B) → C) ↔ A");
    println!("{:?}", result);
}

#[test]
fn test_disjunctive() {
    let table = truth_table("((A ∧ B) → C) ↔ A");
    let result = disjunctive_normal_form(&table);
    println!("DNF: {:?}", result);
}

#[test]
fn test_conjunctive() {
    let table = truth_table("((A ∧ B) → C) ↔ A");
    let result = conjunctive_normal_form(&table);
    println!("CNF: {:?}", result);
}

#[test]
fn test_print_table() {
    let table = truth_table("((A ∧ B) → C) ↔ A");
    println!("{}", format_truth_table(&table).unwrap());
}

fn assignment(entries: &[(char, bool)]) -> Assignment {
    let mut assignment = Assignment::new();
    for (var, value) in entries {
        assignment.insert(*var, *value);
    }
    assignment
}

fn results(table: &[(Assignment, bool)]) -> Vec<bool> {
    table.iter().map(|row| row.1).collect()
}

#[test]
fn variables_come_once_and_in_alphabetical_order() {
    assert_eq!(variables_of("((A ∧ B) → C) ↔ A"), vec!['A', 'B', 'C']);
    assert_eq!(variables_of("Z ∨ B ∨ Z ∨ A"), vec!['A', 'B', 'Z']);
    assert_eq!(variables_of("T ∧ F"), vec![]);
    assert_eq!(variables_of("true ∧ x ∧ É"), vec![]);
    assert_eq!(variables_of(""), vec![]);
}

#[test]
fn the_table_has_a_row_for_every_assignment() {
    let table = truth_table("((A ∧ B) → C) ↔ A");
    assert_eq!(table.len(), 8);
    for (i, row) in table.iter().enumerate() {
        assert_eq!(
            row.0.as_slice(),
            &[('A', i & 1 != 0), ('B', i & 2 != 0), ('C', i & 4 != 0)]
        );
    }
    for i in 0..table.len() {
        for j in 0..i {
            assert_ne!(table[i].0, table[j].0);
        }
    }
    assert_eq!(
        results(&table),
        vec![false, true, false, false, false, true, false, true]
    );
}

#[test]
fn the_number_of_rows_doubles_with_every_variable() {
    assert_eq!(truth_table("true").len(), 1);
    assert_eq!(truth_table("A").len(), 2);
    assert_eq!(truth_table("A ∧ A").len(), 2);
    assert_eq!(truth_table("A ∧ B").len(), 4);
    assert_eq!(truth_table("A ∧ B ∧ C ∧ D ∧ E").len(), 32);
    assert_eq!(truth_table("T → (A ∨ F)").len(), 2);
}

#[test]
fn a_table_without_variables_has_one_row() {
    let table = truth_table("T → F");
    assert_eq!(table.len(), 1);
    assert_eq!(table[0].0.len(), 0);
    assert!(!table[0].1);
    let table = truth_table("¬false");
    assert_eq!(results(&table), vec![true]);
}

#[test]
fn rows_of_the_conjunction() {
    let table = truth_table("A ∧ B");
    assert_eq!(results(&table), vec![false, false, false, true]);
    assert_eq!(table[1].0.as_slice(), &[('A', true), ('B', false)]);
    assert_eq!(table[2].0.as_slice(), &[('A', false), ('B', true)]);
}

#[test]
fn substitution_replaces_letters_by_keywords() {
    let values = assignment(&[('A', true), ('B', false)]);
    assert!(calculate_with_assignment("A ∧ ¬B", &values));
    assert!(!calculate_with_assignment("A ∧ B", &values));
    assert!(calculate_with_assignment("T ∧ ¬F", &values));
    assert!(calculate_with_assignment("true ∧ (B → false)", &values));
    assert!(calculate_with_assignment("B ↔ F", &values));
}

#[test]
fn a_variable_without_a_value_stays_as_it_is() {
    let values = assignment(&[('A', true)]);
    assert_eq!(
        try_calculate_with_assignment("A ∧ B", &values),
        Err(SyntaxError::Lex(LexerError::UnknownChar))
    );
    assert_eq!(try_calculate_with_assignment("A ∧ T", &values), Ok(true));
}

#[test]
fn neighbouring_letters_run_together() {
    let values = assignment(&[('A', true), ('B', false)]);
    assert_eq!(
        try_calculate_with_assignment("AB", &values),
        Err(SyntaxError::Lex(LexerError::OperandFormatError))
    );
    assert_eq!(
        try_calculate_with_assignment("A B", &values),
        Err(SyntaxError::Parse(ParseError::Unmatch))
    );
    assert_eq!(
        try_calculate_with_assignment("(A ∧ B", &values),
        Err(SyntaxError::Parse(ParseError::MissingBracket))
    );
}

#[test]
fn try_truth_table_reports_the_failing_stage() {
    assert_eq!(
        try_truth_table("A ∧ (B").err(),
        Some(SyntaxError::Parse(ParseError::MissingBracket))
    );
    assert_eq!(
        try_truth_table("A ∧").err(),
        Some(SyntaxError::Parse(ParseError::Unmatch))
    );
    assert_eq!(
        try_truth_table("A # B").err(),
        Some(SyntaxError::Lex(LexerError::UnknownChar))
    );
    assert_eq!(
        try_truth_table("Ax").err(),
        Some(SyntaxError::Lex(LexerError::OperandFormatError))
    );
    assert_eq!(
        try_truth_table("A) ∧ B").err(),
        Some(SyntaxError::Parse(ParseError::Unmatch))
    );
    assert_eq!(try_truth_table("A ∨ ¬A").map(|t| results(&t)), Ok(vec![true, true]));
}

#[test]
fn disjunctive_normal_form_lists_the_true_rows() {
    let table = truth_table("((A ∧ B) → C) ↔ A");
    assert_eq!(
        disjunctive_normal_form(&table),
        "(A ∧ ¬B ∧ ¬C) ∨ (A ∧ ¬B ∧ C) ∨ (A ∧ B ∧ C)"
    );
    assert_eq!(disjunctive_normal_form(&truth_table("A ∧ B")), "(A ∧ B)");
    assert_eq!(disjunctive_normal_form(&truth_table("¬A")), "(¬A)");
    assert_eq!(disjunctive_normal_form(&truth_table("A ∨ B")), "(A ∧ ¬B) ∨ (¬A ∧ B) ∨ (A ∧ B)");
}

#[test]
fn conjunctive_normal_form_lists_the_false_rows() {
    let table = truth_table("((A ∧ B) → C) ↔ A");
    assert_eq!(
        conjunctive_normal_form(&table),
        "(A ∨ B ∨ C) ∧ (A ∨ ¬B ∨ C) ∧ (¬A ∨ ¬B ∨ C) ∧ (A ∨ B ∨ ¬C) ∧ (A ∨ ¬B ∨ ¬C)"
    );
    assert_eq!(conjunctive_normal_form(&truth_table("A ∨ B")), "(A ∨ B)");
    assert_eq!(conjunctive_normal_form(&truth_table("A")), "(A)");
    assert_eq!(
        conjunctive_normal_form(&truth_table("A ∧ B")),
        "(A ∨ B) ∧ (¬A ∨ B) ∧ (A ∨ ¬B)"
    );
}

#[test]
fn a_normal_form_without_rows_is_empty() {
    assert_eq!(disjunctive_normal_form(&truth_table("A ∧ ¬A")), "");
    assert_eq!(conjunctive_normal_form(&truth_table("A ∨ ¬A")), "");
    assert_eq!(disjunctive_normal_form(&[]), "");
    assert_eq!(conjunctive_normal_form(&[]), "");
}

#[test]
fn a_normal_form_without_variables_is_an_empty_bracket() {
    assert_eq!(disjunctive_normal_form(&truth_table("T")), "()");
    assert_eq!(conjunctive_normal_form(&truth_table("F")), "()");
}

#[test]
fn the_normal_forms_have_the_values_of_the_table() {
    for expr in ["((A ∧ B) → C) ↔ A", "A ∨ B", "A ↔ ¬B", "(P → Q) ∧ (Q → R)", "X"] {
        let table = truth_table(expr);
        let dnf = disjunctive_normal_form(&table);
        let cnf = conjunctive_normal_form(&table);
        for row in table.iter() {
            assert_eq!(calculate_with_assignment(&dnf, &row.0), row.1);
            assert_eq!(calculate_with_assignment(&cnf, &row.0), row.1);
        }
    }
}

#[test]
fn the_table_as_text() {
    assert_eq!(
        format_truth_table(&truth_table("A ∧ B")).unwrap(),
        "A\tB\tResult\nfalse\tfalse\tfalse\ntrue\tfalse\tfalse\nfalse\ttrue\tfalse\ntrue\ttrue\ttrue\n"
    );
    assert_eq!(format_truth_table(&truth_table("T")).unwrap(), "Result\ntrue\n");
    assert_eq!(format_truth_table(&[]).unwrap(), "Table is empty!\n");
}

#[test]
fn a_row_without_a_value_for_a_column_has_no_text() {
    let table = vec![
        (assignment(&[('A', true), ('B', false)]), true),
        (assignment(&[('A', false)]), false),
    ];
    assert_eq!(format_truth_table(&table), None);
    let table = vec![
        (assignment(&[('A', true)]), true),
        (assignment(&[('B', false), ('A', false)]), false),
    ];
    assert_eq!(format_truth_table(&table).unwrap(), "A\tResult\ntrue\ttrue\nfalse\tfalse\n");
}
