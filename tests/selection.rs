use binary_type_inference::constraints::{DerivedTypeVar, FieldLabel, SubtypeConstraint, TypeVariable};
use binary_type_inference::interesting::{
    interesting_from_matches, select_interesting, SelectionError, DEFAULT_PATTERN,
};

fn sub(a: &str, b: &str) -> SubtypeConstraint {
    SubtypeConstraint::new(
        DerivedTypeVar::new(TypeVariable::new(a.to_string())),
        DerivedTypeVar::create_with_path(TypeVariable::new(b.to_string()), vec![FieldLabel::Load]),
    )
}

fn names(v: &[TypeVariable]) -> Vec<String> {
    v.iter().map(|t| t.get_name().clone()).collect()
}

#[test]
fn default_pattern_selects_subprocedures() {
    let cons = vec![
        sub("fresh_1", "sub_100"),
        sub("sub_42", "sub_100"),
        sub("sub_x", "stack"),
        sub("sub_7", "sub_42"),
        sub("xsub_1", "sub_12a"),
    ];
    let r = select_interesting(&cons, DEFAULT_PATTERN).unwrap();
    assert_eq!(names(&r), vec!["sub_100", "sub_42", "sub_7"]);
}

#[test]
fn invalid_pattern_is_rejected() {
    let cons = vec![sub("a", "b")];
    assert_eq!(select_interesting(&cons, "(").unwrap_err(), SelectionError::InvalidPattern);
    assert!(select_interesting(&vec![], "(").unwrap().is_empty());
}

#[test]
fn flags_pick_sides_once() {
    let cons = vec![sub("a", "b"), sub("b", "a"), sub("c", "d")];
    let r = interesting_from_matches(&cons, &vec![true, true, false], &vec![false, true, true]);
    assert_eq!(names(&r), vec!["a", "b", "d"]);
}
