use binary_type_inference::constraints::{Field as LabelField, FieldLabel};
use binary_type_inference::lowering::context::LoweringContext;
use binary_type_inference::lowering::schedule::schedule_fields;
use binary_type_inference::lowering::{CType, Field, LoweringError, TypeId};
use binary_type_inference::sketch::{LatticeBounds, NodeIndex, SketchGraph};

fn bounds(upper: &str) -> LatticeBounds {
    LatticeBounds::new("bottom".to_string(), upper.to_string())
}

fn field(offset: i64, size: usize) -> FieldLabel {
    FieldLabel::Field(LabelField { offset, size })
}

fn graph(n: usize, edges: &[(usize, usize, FieldLabel)]) -> SketchGraph {
    let mut g = SketchGraph::new();
    for _ in 0..n {
        g.add_node(bounds("int"));
    }
    for (s, d, l) in edges {
        g.add_edge(NodeIndex(*s), NodeIndex(*d), *l);
    }
    g
}

fn lower(
    g: &SketchGraph,
    outs: Vec<(String, Vec<usize>)>,
    tids: Vec<(String, NodeIndex)>,
) -> (Vec<TypeId>, Vec<(TypeId, CType)>) {
    let ctx = LoweringContext::new(g, &tids, &outs, bounds("undefined4"));
    ctx.collect_ctypes().unwrap()
}

fn ty(types: &[(TypeId, CType)], id: TypeId) -> CType {
    types.iter().find(|(i, _)| *i == id).unwrap().1.clone()
}

fn alias_target(types: &[(TypeId, CType)], id: TypeId) -> usize {
    match ty(types, id) {
        CType::Alias(n) => n.0,
        other => panic!("not an alias: {:?}", other),
    }
}

fn struct_fields(types: &[(TypeId, CType)], id: TypeId) -> Vec<(usize, usize, usize)> {
    match ty(types, id) {
        CType::Structure(fs) => fs
            .iter()
            .map(|f| (f.byte_offset, f.bit_sz, alias_target(types, f.type_index)))
            .collect(),
        other => panic!("not a structure: {:?}", other),
    }
}

#[test]
fn two_field_struct() {
    let g = graph(3, &[(0, 1, field(0, 32)), (0, 2, field(4, 32))]);
    let (m, types) = lower(&g, vec![], vec![]);
    assert_eq!(struct_fields(&types, m[0]), vec![(0, 32, 1), (4, 32, 2)]);
}

#[test]
fn overlapping_split() {
    let g = graph(3, &[(0, 1, field(0, 64)), (0, 2, field(4, 32))]);
    let (m, types) = lower(&g, vec![], vec![]);
    match ty(&types, m[0]) {
        CType::Union(ids) => {
            assert_eq!(ids.len(), 2);
            assert_eq!(struct_fields(&types, ids[0]), vec![(0, 64, 1)]);
            assert_eq!(struct_fields(&types, ids[1]), vec![(4, 32, 2)]);
        }
        other => panic!("expected a union, got {:?}", other),
    }
}

#[test]
fn containment_drop() {
    let g = graph(3, &[(0, 1, field(0, 64)), (0, 2, field(2, 16))]);
    let (m, types) = lower(&g, vec![], vec![]);
    assert_eq!(struct_fields(&types, m[0]), vec![(0, 64, 1)]);
}

#[test]
fn multi_return_pad() {
    let g = graph(
        3,
        &[(0, 1, FieldLabel::Out(0)), (0, 2, FieldLabel::Out(1))],
    );
    let (m, types) = lower(
        &g,
        vec![("sub_1".to_string(), vec![32, 32])],
        vec![("sub_1".to_string(), NodeIndex(0))],
    );
    match ty(&types, m[0]) {
        CType::Function { params, return_ty } => {
            assert!(params.is_empty());
            assert_eq!(struct_fields(&types, return_ty.unwrap()), vec![(0, 32, 1), (4, 32, 2)]);
        }
        other => panic!("expected a function, got {:?}", other),
    }
}

#[test]
fn return_pad_uses_default_primitive() {
    let g = graph(2, &[(0, 1, FieldLabel::Out(0))]);
    let (m, types) = lower(
        &g,
        vec![("sub_1".to_string(), vec![32, 64])],
        vec![("sub_1".to_string(), NodeIndex(0))],
    );
    match ty(&types, m[0]) {
        CType::Function { return_ty, .. } => match ty(&types, return_ty.unwrap()) {
            CType::Structure(fs) => {
                assert_eq!(fs.len(), 2);
                assert_eq!(fs[1].byte_offset, 4);
                assert_eq!(fs[1].bit_sz, 64);
                match ty(&types, fs[1].type_index) {
                    CType::Primitive(n) => assert_eq!(n, "undefined4"),
                    other => panic!("expected a primitive, got {:?}", other),
                }
            }
            other => panic!("expected a structure, got {:?}", other),
        },
        other => panic!("expected a function, got {:?}", other),
    }
}

#[test]
fn pointer_round_trip_lowering() {
    // g --In(0)--> p --Load--> h
    let g = graph(3, &[(0, 1, FieldLabel::In(0)), (1, 2, FieldLabel::Load)]);
    let (m, types) = lower(&g, vec![], vec![]);
    match ty(&types, m[0]) {
        CType::Function { params, return_ty } => {
            assert_eq!(params.len(), 1);
            assert_eq!(params[0].index, 0);
            assert_eq!(alias_target(&types, params[0].type_index), 1);
            assert_eq!(return_ty, None);
        }
        other => panic!("expected a function, got {:?}", other),
    }
    match ty(&types, m[1]) {
        CType::Pointer { target } => assert_eq!(alias_target(&types, target), 2),
        other => panic!("expected a pointer, got {:?}", other),
    }
}

#[test]
fn single_candidate_not_wrapped() {
    let g = graph(2, &[(0, 1, FieldLabel::Store)]);
    let (m, types) = lower(&g, vec![], vec![]);
    assert!(matches!(ty(&types, m[0]), CType::Pointer { .. }));
}

#[test]
fn zero_offset_fields_are_aliases() {
    let g = graph(3, &[(0, 2, field(0, 32)), (0, 1, field(0, 8))]);
    let (m, types) = lower(&g, vec![], vec![]);
    match ty(&types, m[0]) {
        CType::Union(ids) => {
            let tys: Vec<CType> = ids.iter().map(|i| ty(&types, *i)).collect();
            assert_eq!(tys.len(), 2);
            assert!(matches!(tys[0], CType::Alias(NodeIndex(1))));
            assert!(matches!(tys[1], CType::Alias(NodeIndex(2))));
        }
        other => panic!("expected a union, got {:?}", other),
    }
}

#[test]
fn parameters_with_several_targets_become_unions() {
    let g = graph(3, &[(0, 1, FieldLabel::In(0)), (0, 2, FieldLabel::In(0))]);
    let (m, types) = lower(&g, vec![], vec![]);
    match ty(&types, m[0]) {
        CType::Function { params, .. } => {
            assert_eq!(params.len(), 1);
            match ty(&types, params[0].type_index) {
                CType::Union(ids) => {
                    let mut tgts: Vec<usize> = ids.iter().map(|i| alias_target(&types, *i)).collect();
                    tgts.sort();
                    assert_eq!(tgts, vec![1, 2]);
                }
                other => panic!("expected a union, got {:?}", other),
            }
        }
        other => panic!("expected a function, got {:?}", other),
    }
}

#[test]
fn terminal_primitives_are_shared() {
    let mut g = SketchGraph::new();
    g.add_node(bounds("int"));
    g.add_node(bounds("int"));
    g.add_node(bounds("char"));
    let (m, types) = lower(&g, vec![], vec![]);
    assert_eq!(m[0], m[1]);
    assert_ne!(m[0], m[2]);
    match ty(&types, m[2]) {
        CType::Primitive(n) => assert_eq!(n, "char"),
        other => panic!("expected a primitive, got {:?}", other),
    }
    assert_eq!(types[0].0, TypeId(3));
}

#[test]
fn node_without_candidates_gets_empty_union() {
    let g = graph(2, &[(0, 1, field(-4, 32))]);
    let (m, types) = lower(&g, vec![], vec![]);
    match ty(&types, m[0]) {
        CType::Union(ids) => assert!(ids.is_empty()),
        other => panic!("expected a union, got {:?}", other),
    }
}

#[test]
fn return_offsets_overflow_is_reported() {
    let g = graph(1, &[]);
    let outs = vec![("f".to_string(), vec![usize::MAX; 9])];
    let tids = vec![("f".to_string(), NodeIndex(0))];
    let ctx = LoweringContext::new(&g, &tids, &outs, bounds("undefined4"));
    assert_eq!(ctx.collect_ctypes().unwrap_err(), LoweringError::Overflow);
}

#[test]
fn schedule_keeps_fields_apart() {
    let t = TypeId(9);
    let fields = vec![
        Field::new(8, 32, t),
        Field::new(0, 64, t),
        Field::new(4, 64, t),
        Field::new(12, 32, t),
    ];
    let rooms = schedule_fields(&fields);
    assert_eq!(rooms.len(), 2);
    assert_eq!(rooms[0], vec![Field::new(0, 64, t), Field::new(8, 32, t), Field::new(12, 32, t)]);
    assert_eq!(rooms[1], vec![Field::new(4, 64, t)]);
}

#[test]
fn schedule_drops_contained_fields() {
    let t = TypeId(1);
    let fields = vec![Field::new(0, 128, t), Field::new(4, 32, t), Field::new(8, 64, t)];
    let rooms = schedule_fields(&fields);
    assert_eq!(rooms, vec![vec![Field::new(0, 128, t)], vec![Field::new(8, 64, t)]]);
}

#[test]
fn schedule_of_nothing_is_empty() {
    assert!(schedule_fields(&vec![]).is_empty());
}
