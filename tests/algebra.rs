use binary_type_inference::constraints::{
    AddConstraint, ConstraintSet, DerivedTypeVar, Field, FieldLabel, SubtypeConstraint,
    TyConstraint, TypeVariable, Variance,
};
use binary_type_inference::ctypes;
use binary_type_inference::lowering::convert::{
    convert_mapping_to_profobuf, convert_typeid, produce_inner_types,
};
use binary_type_inference::lowering::{CType, LoweringError, Parameter, TypeId};
use binary_type_inference::node_context::points_to::{memory_access_into_tvar, strip_white_space};
use binary_type_inference::sketch::NodeIndex;
use binary_type_inference::util::{constraint_set_to_subtys, FileDebugLogger};

fn tv(n: &str) -> TypeVariable {
    TypeVariable::new(n.to_string())
}

fn dtv(n: &str, path: Vec<FieldLabel>) -> DerivedTypeVar {
    DerivedTypeVar::create_with_path(tv(n), path)
}

#[test]
fn variance_of_paths() {
    assert_eq!(dtv("f", vec![]).path_variance(), Variance::Covariant);
    assert_eq!(dtv("f", vec![FieldLabel::In(0)]).path_variance(), Variance::Contravariant);
    assert_eq!(
        dtv("f", vec![FieldLabel::In(0), FieldLabel::Load]).path_variance(),
        Variance::Contravariant
    );
    assert_eq!(
        dtv("f", vec![FieldLabel::In(0), FieldLabel::Store]).path_variance(),
        Variance::Covariant
    );
    assert_eq!(
        dtv("f", vec![FieldLabel::Out(1), FieldLabel::Field(Field { offset: 4, size: 32 })])
            .path_variance(),
        Variance::Covariant
    );
}

#[test]
fn add_label_extends_path() {
    let mut d = DerivedTypeVar::new(tv("x"));
    d.add_field_label(FieldLabel::Load);
    d.add_field_label(FieldLabel::Store);
    assert_eq!(d.get_field_labels(), &vec![FieldLabel::Load, FieldLabel::Store]);
    assert_eq!(d.get_base_variable().get_name(), "x");
    assert_eq!(d.path_variance(), Variance::Contravariant);
}

#[test]
fn subtys_are_filtered_and_deduplicated() {
    let mut cs = ConstraintSet::empty();
    let c1 = SubtypeConstraint::new(dtv("a", vec![]), dtv("b", vec![FieldLabel::Load]));
    let c2 = SubtypeConstraint::new(dtv("b", vec![]), dtv("c", vec![]));
    cs.insert(TyConstraint::SubTy(c1.clone()));
    cs.insert(TyConstraint::AddCons(AddConstraint { lhs: tv("a"), rhs: tv("b"), repr: tv("c") }));
    cs.insert(TyConstraint::SubTy(c2.clone()));
    cs.insert(TyConstraint::SubTy(c1.clone()));
    let subs = constraint_set_to_subtys(&cs);
    assert_eq!(subs.len(), 2);
    assert!(subs[0] == c1);
    assert!(subs[1] == c2);
}

#[test]
fn negative_stack_offset_is_suppressed() {
    let acc = memory_access_into_tvar("stack_main", true, Some(-16), Some(-8), 4);
    assert_eq!(acc.offset, None);
    let acc = memory_access_into_tvar("heap obj", false, Some(-8), None, 4);
    assert_eq!(acc.offset, None);
    assert_eq!(acc.ty_var.get_name(), "heapobj");
}

#[test]
fn stack_offset_is_normalised() {
    let acc = memory_access_into_tvar("stack @ main", true, Some(-8), Some(-24), 8);
    assert_eq!(acc.offset, Some(16));
    assert_eq!(acc.sz, 8);
    assert_eq!(acc.ty_var.get_name(), "stack@main");
    let acc = memory_access_into_tvar("obj", false, Some(12), Some(-24), 8);
    assert_eq!(acc.offset, Some(12));
    let acc = memory_access_into_tvar("obj", true, None, Some(-24), 8);
    assert_eq!(acc.offset, None);
    let acc = memory_access_into_tvar("obj", true, Some(i64::MAX), Some(-1), 8);
    assert_eq!(acc.offset, None);
}

#[test]
fn white_space_is_removed() {
    assert_eq!(strip_white_space(" a\tb\n c\u{3000}"), "abc");
    assert_eq!(strip_white_space(""), "");
}

#[test]
fn typeid_converts() {
    assert_eq!(convert_typeid(TypeId(42)).type_id, 42);
}

#[test]
fn inner_types_convert() {
    let mp = vec![TypeId(7), TypeId(8)];
    match produce_inner_types(CType::Alias(NodeIndex(1)), &mp) {
        ctypes::InnerType::Alias(a) => assert_eq!(a.to_type, Some(ctypes::TypeId { type_id: 8 })),
        _ => panic!("expected an alias"),
    }
    match produce_inner_types(CType::Alias(NodeIndex(5)), &mp) {
        ctypes::InnerType::Alias(a) => assert_eq!(a.to_type, None),
        _ => panic!("expected an alias"),
    }
    match produce_inner_types(
        CType::Function { params: vec![Parameter::new(1, TypeId(3))], return_ty: None },
        &mp,
    ) {
        ctypes::InnerType::Function(f) => {
            assert!(!f.has_return);
            assert_eq!(f.parameters.len(), 1);
            assert_eq!(f.parameters[0].parameter_index, 1);
            assert_eq!(f.parameters[0].type_index, Some(ctypes::TypeId { type_id: 3 }));
        }
        _ => panic!("expected a function"),
    }
    match produce_inner_types(CType::Union(vec![TypeId(4), TypeId(5)]), &mp) {
        ctypes::InnerType::Union(u) => {
            let ids: Vec<u32> = u.target_type_ids.iter().map(|t| t.type_id).collect();
            assert_eq!(ids, vec![4, 5]);
        }
        _ => panic!("expected a union"),
    }
}

#[test]
fn mapping_converts_in_order() {
    let mp = vec![
        (TypeId(3), CType::Primitive("int".to_string())),
        (TypeId(4), CType::Pointer { target: TypeId(3) }),
    ];
    let m = convert_mapping_to_profobuf(mp, &vec![TypeId(4)]).unwrap();
    assert_eq!(m.type_id_to_ctype.len(), 2);
    assert_eq!(m.type_id_to_ctype[0].0, 3);
    match m.type_id_to_ctype[0].1.inner_type.as_ref().unwrap() {
        ctypes::InnerType::Primitive(p) => assert_eq!(p.type_constant, "int"),
        _ => panic!("expected a primitive"),
    }
    match m.type_id_to_ctype[1].1.inner_type.as_ref().unwrap() {
        ctypes::InnerType::Pointer(p) => assert_eq!(p.to_type_id, Some(ctypes::TypeId { type_id: 3 })),
        _ => panic!("expected a pointer"),
    }
}

#[test]
fn mapping_overflow_is_reported() {
    let mp = vec![(TypeId(1usize << 40), CType::Primitive("int".to_string()))];
    assert_eq!(
        convert_mapping_to_profobuf(mp, &vec![]).unwrap_err(),
        LoweringError::Overflow
    );
}

#[test]
fn debug_logger_reports_logging() {
    assert!(FileDebugLogger::new(Some("out".to_string())).is_logging());
    assert!(!FileDebugLogger::new(None).is_logging());
}

#[test]
fn constraints_render_canonically() {
    let c = SubtypeConstraint::new(
        dtv("sub_1", vec![FieldLabel::In(0), FieldLabel::Field(Field { offset: -4, size: 32 })]),
        dtv("h", vec![FieldLabel::Load, FieldLabel::Out(12), FieldLabel::Store]),
    );
    assert_eq!(c.to_text(), "sub_1.in_0.field32@-4 <= h.load.out_12.store");
    assert_eq!(dtv("x", vec![]).to_text(), "x");
}
