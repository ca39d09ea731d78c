use binary_type_inference::constraints::{DerivedTypeVar, FieldLabel, SubtypeConstraint, TypeVariable};
use binary_type_inference::solver::{saturate, LabelEdge, FSA};

fn d(n: &str, p: Vec<FieldLabel>) -> DerivedTypeVar {
    DerivedTypeVar::create_with_path(TypeVariable::new(n.to_string()), p)
}

fn sub(a: DerivedTypeVar, b: DerivedTypeVar) -> SubtypeConstraint {
    SubtypeConstraint::new(a, b)
}

fn show(c: &SubtypeConstraint) -> String {
    let side = |x: &DerivedTypeVar| {
        let mut s = x.get_base_variable().get_name().clone();
        for l in x.get_field_labels() {
            s.push_str(&format!(".{:?}", l));
        }
        s
    };
    format!("{} <= {}", side(&c.lhs), side(&c.rhs))
}

#[test]
fn load_through_subtype_cancels() {
    let cons = vec![
        sub(d("d", vec![]), d("a", vec![FieldLabel::Load])),
        sub(d("a", vec![]), d("b", vec![])),
        sub(d("b", vec![FieldLabel::Load]), d("c", vec![])),
    ];
    let mut f = FSA::new(&cons);
    assert!(f.is_subtype(&d("a", vec![]), &d("b", vec![])));
    assert!(!f.is_subtype(&d("d", vec![]), &d("c", vec![])));
    f.saturate();
    assert!(f.is_subtype(&d("a", vec![FieldLabel::Load]), &d("b", vec![FieldLabel::Load])));
    assert!(f.is_subtype(&d("d", vec![]), &d("c", vec![])));
    assert!(!f.is_subtype(&d("c", vec![]), &d("d", vec![])));
}

#[test]
fn parameters_flip_direction() {
    let cons = vec![
        sub(d("a", vec![]), d("b", vec![])),
        sub(d("x", vec![]), d("b", vec![FieldLabel::In(0)])),
        sub(d("a", vec![FieldLabel::In(0)]), d("y", vec![])),
    ];
    let mut f = FSA::new(&cons);
    f.saturate();
    assert!(f.is_subtype(&d("b", vec![FieldLabel::In(0)]), &d("a", vec![FieldLabel::In(0)])));
    assert!(!f.is_subtype(&d("a", vec![FieldLabel::In(0)]), &d("b", vec![FieldLabel::In(0)])));
    assert!(f.is_subtype(&d("x", vec![]), &d("y", vec![])));
    let walked: Vec<String> = f
        .walk_constraints(&vec![TypeVariable::new("x".to_string()), TypeVariable::new("y".to_string())])
        .iter()
        .map(show)
        .collect();
    assert_eq!(walked, vec!["x <= y".to_string()]);
}

#[test]
fn walk_keeps_interesting_endpoints_only() {
    let cons = vec![
        sub(d("f", vec![]), d("m", vec![])),
        sub(d("m", vec![]), d("h", vec![])),
        sub(d("h", vec![]), d("t", vec![])),
    ];
    let mut f = FSA::new(&cons);
    f.saturate();
    let vars = vec![TypeVariable::new("f".to_string()), TypeVariable::new("h".to_string())];
    let walked: Vec<String> = f.walk_constraints(&vars).iter().map(show).collect();
    assert_eq!(walked, vec!["f <= h".to_string()]);
}

#[test]
fn saturation_closes_matrix() {
    let eps = vec![
        vec![false, true, false, false],
        vec![false, false, false, false],
        vec![false, false, false, true],
        vec![false, false, false, false],
    ];
    let pushes = vec![LabelEdge { src: 3, dst: 0, label: FieldLabel::Load }];
    let pops = vec![LabelEdge { src: 1, dst: 2, label: FieldLabel::Load }];
    let r = saturate(eps, 4, &pushes, &pops);
    // 3 -push-> 0 -eps-> 1 -pop-> 2, so 3 -eps-> 2; 2 -eps-> 3, so 2 -eps-> 2 and 3 -eps-> 3.
    assert!(r[3][2]);
    assert!(r[2][2]);
    assert!(r[3][3]);
    assert!(r[0][1]);
    assert!(!r[1][0]);
}

#[test]
fn saturation_is_deterministic() {
    let cons = vec![
        sub(d("d", vec![]), d("a", vec![FieldLabel::Store])),
        sub(d("a", vec![]), d("b", vec![])),
        sub(d("b", vec![FieldLabel::Store]), d("c", vec![])),
    ];
    let run = || {
        let mut f = FSA::new(&cons);
        f.saturate();
        let vars = vec![TypeVariable::new("c".to_string()), TypeVariable::new("d".to_string())];
        f.walk_constraints(&vars).iter().map(show).collect::<Vec<String>>()
    };
    assert_eq!(run(), run());
}

#[test]
fn pop_push_restriction_keeps_path_edges() {
    let cons = vec![
        sub(d("f", vec![]), d("g", vec![FieldLabel::In(0)])),
        sub(d("g", vec![FieldLabel::In(0), FieldLabel::Load]), d("h", vec![])),
        sub(d("q", vec![FieldLabel::Store]), d("r", vec![])),
    ];
    let mut f = FSA::new(&cons);
    f.saturate();
    let vars = vec![TypeVariable::new("f".to_string()), TypeVariable::new("h".to_string())];
    let g = f.intersect_with_pop_push(&vars);
    let gin = f.find_node(&d("g", vec![FieldLabel::In(0)]), binary_type_inference::constraints::Variance::Covariant).unwrap();
    let gload = f
        .find_node(&d("g", vec![FieldLabel::In(0), FieldLabel::Load]), binary_type_inference::constraints::Variance::Covariant)
        .unwrap();
    assert_eq!(g.pops.len(), 1);
    assert_eq!(g.pops[0], LabelEdge { src: gin, dst: gload, label: FieldLabel::Load });
    assert!(g.pushes.iter().all(|e| e.label != FieldLabel::Store));
    let none = f.intersect_with_pop_push(&vec![]);
    assert!(none.pops.is_empty() && none.pushes.is_empty());
}

#[test]
fn pointer_round_trip_reduces_to_load() {
    let cons = vec![
        sub(d("f", vec![]), d("g", vec![FieldLabel::In(0)])),
        sub(d("g", vec![FieldLabel::In(0), FieldLabel::Load]), d("h", vec![])),
    ];
    let mut f = FSA::new(&cons);
    f.saturate();
    let vars = vec![
        TypeVariable::new("f".to_string()),
        TypeVariable::new("g".to_string()),
        TypeVariable::new("h".to_string()),
    ];
    let walked: Vec<String> = f.walk_field_constraints(&vars).iter().map(show).collect();
    assert_eq!(walked, vec!["f.Load <= h".to_string()]);
}

#[test]
fn push_derivation_extends_supertype() {
    let cons = vec![
        sub(d("x", vec![]), d("p", vec![FieldLabel::Load])),
        sub(d("p", vec![]), d("y", vec![])),
    ];
    let mut f = FSA::new(&cons);
    f.saturate();
    let vars = vec![TypeVariable::new("x".to_string()), TypeVariable::new("y".to_string())];
    let walked: Vec<String> = f.walk_field_constraints(&vars).iter().map(show).collect();
    assert_eq!(walked, vec!["x <= y.Load".to_string()]);
}
