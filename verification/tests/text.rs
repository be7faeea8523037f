use proplogic::text::{push_junction, push_keyword};

#[test]
fn keywords_are_appended() {
    let mut out = String::from("(");
    push_keyword(&mut out, true);
    assert_eq!(out, "(true");
    push_keyword(&mut out, false);
    assert_eq!(out, "(truefalse");
}

#[test]
fn junctions_are_appended_with_spaces() {
    let mut out = String::from("A");
    push_junction(&mut out, true);
    assert_eq!(out, "A ∧ ");
    push_junction(&mut out, false);
    assert_eq!(out, "A ∧  ∨ ");
}
