use proplogic::assignment::Assignment;

#[test]
fn a_new_assignment_is_empty() {
    let assignment = Assignment::new();
    assert_eq!(assignment.len(), 0);
    assert_eq!(assignment.as_slice(), &[]);
    assert_eq!(assignment.get('A'), None);
}

#[test]
fn insert_appends_a_new_variable() {
    let mut assignment = Assignment::new();
    assert_eq!(assignment.insert('B', true), None);
    assert_eq!(assignment.insert('A', false), None);
    assert_eq!(assignment.len(), 2);
    assert_eq!(assignment.as_slice(), &[('B', true), ('A', false)]);
    assert_eq!(assignment.get('A'), Some(false));
    assert_eq!(assignment.get('B'), Some(true));
    assert_eq!(assignment.get('C'), None);
}

#[test]
fn insert_replaces_the_value_of_a_known_variable() {
    let mut assignment = Assignment::new();
    assignment.insert('A', false);
    assignment.insert('B', false);
    assert_eq!(assignment.insert('A', true), Some(false));
    assert_eq!(assignment.as_slice(), &[('A', true), ('B', false)]);
    assert_eq!(assignment.insert('A', true), Some(true));
    assert_eq!(assignment.len(), 2);
}
