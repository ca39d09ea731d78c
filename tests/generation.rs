use binary_type_inference::constraint_generation::{
    Arg, SubprocedureLocators,
    assign_constraint, load_constraints, store_constraints, Context, Def, Expression, Node,
    NodeContext, PointsToMapping, RegisterMapping, TypeVariableAccess, Variable, VariableManager,
};
use binary_type_inference::constraints::{
    ConstraintSet, DerivedTypeVar, FieldLabel, SubtypeConstraint, TyConstraint, TypeVariable,
};
use binary_type_inference::lowering::context::LoweringContext;
use binary_type_inference::lowering::CType;
use binary_type_inference::sketch::{build_sketch, lattice_bounds, LatticeBounds, LinearLattice};

struct Regs;

impl RegisterMapping for Regs {
    fn access(&self, var: &Variable, _vman: &mut VariableManager) -> (TypeVariable, ConstraintSet) {
        (TypeVariable::new(format!("{}_def", var.name)), ConstraintSet::empty())
    }
}

struct Mem;

impl PointsToMapping for Mem {
    fn points_to(&self, _address: &Expression, sz: usize, _vman: &mut VariableManager) -> Vec<TypeVariableAccess> {
        vec![
            TypeVariableAccess { ty_var: TypeVariable::new("stack".to_string()), offset: Some(8), sz },
            TypeVariableAccess { ty_var: TypeVariable::new("heap".to_string()), offset: None, sz },
        ]
    }
}

fn var(n: &str, size: usize) -> Variable {
    Variable { name: n.to_string(), size }
}

fn render(c: &SubtypeConstraint) -> String {
    fn side(d: &DerivedTypeVar) -> String {
        let mut s = d.get_base_variable().get_name().clone();
        for l in d.get_field_labels() {
            s.push_str(&format!(".{:?}", l));
        }
        s
    }
    format!("{} <= {}", side(&c.lhs), side(&c.rhs))
}

fn render_set(cs: &ConstraintSet) -> Vec<String> {
    cs.constraints
        .iter()
        .map(|c| match c {
            TyConstraint::SubTy(s) => render(s),
            TyConstraint::AddCons(_) => "add".to_string(),
        })
        .collect()
}

#[test]
fn fresh_variables_are_numbered() {
    let mut vm = VariableManager::new();
    assert_eq!(vm.fresh().get_name(), "fresh_0");
    for _ in 0..9 {
        vm.fresh();
    }
    assert_eq!(vm.fresh().get_name(), "fresh_10");
    assert_eq!(vm.curr_id, 11);
}

#[test]
fn load_skips_unknown_offsets() {
    let accs = vec![
        TypeVariableAccess { ty_var: TypeVariable::new("obj".to_string()), offset: Some(4), sz: 4 },
        TypeVariableAccess { ty_var: TypeVariable::new("other".to_string()), offset: None, sz: 4 },
    ];
    let cs = load_constraints(&TypeVariable::new("r".to_string()), &accs, 32);
    assert_eq!(cs.len(), 1);
    assert_eq!(render(&cs[0]), "obj.Field(Field { offset: 4, size: 32 }).Load <= r");
    let cs = store_constraints(&TypeVariable::new("v".to_string()), &accs, 32);
    assert_eq!(cs.len(), 1);
    assert_eq!(render(&cs[0]), "v <= obj.Field(Field { offset: 4, size: 32 }).Store");
}

#[test]
fn assign_relates_registers() {
    let c = assign_constraint(&TypeVariable::new("a".to_string()), &TypeVariable::new("b".to_string()));
    assert_eq!(render(&c), "a <= b");
}

#[test]
fn block_definitions_generate_constraints() {
    let nc = NodeContext::new(Regs, Mem);
    let defs = vec![
        Def::Assign { var: var("RAX", 8), value: Expression::Var(var("RBX", 8)) },
        Def::Load { var: var("RCX", 4), address: Expression::Other },
        Def::Store { address: Expression::Other, value: Expression::Var(var("RDX", 8)) },
        Def::Assign { var: var("RAX", 8), value: Expression::Other },
    ];
    let mut vm = VariableManager::new();
    let cs = nc.handle_block_start(&defs, &mut vm);
    assert_eq!(
        render_set(&cs),
        vec![
            "RBX_def <= RAX_def".to_string(),
            "stack.Field(Field { offset: 8, size: 32 }).Load <= RCX_def".to_string(),
            "RDX_def <= stack.Field(Field { offset: 8, size: 64 }).Store".to_string(),
        ]
    );
}

#[test]
fn only_block_starts_with_contexts_contribute() {
    let defs = vec![Def::Assign { var: var("RAX", 8), value: Expression::Var(var("RBX", 8)) }];
    let graph = vec![Node::BlkStart(defs.clone()), Node::BlkEnd, Node::BlkStart(defs), Node::CallSource { callee: TypeVariable::new("sub_1".to_string()), args: vec![] }];
    let ctxs = vec![Some(NodeContext::new(Regs, Mem)), Some(NodeContext::new(Regs, Mem)), None];
    let mut ctx = Context::<Regs, Mem, Locs>::new(graph, ctxs);
    let cs = ctx.generate_constraints();
    assert_eq!(render_set(&cs), vec!["RBX_def <= RAX_def".to_string()]);
}

#[test]
fn generation_is_deterministic() {
    let mk = || {
        let defs = vec![
            Def::Load { var: var("RCX", 4), address: Expression::Other },
            Def::Assign { var: var("RAX", 8), value: Expression::Var(var("RCX", 4)) },
        ];
        let mut ctx = Context::<Regs, Mem, Locs>::new(vec![Node::BlkStart(defs)], vec![Some(NodeContext::new(Regs, Mem))]);
        render_set(&ctx.generate_constraints())
    };
    assert_eq!(mk(), mk());
}

fn sub(lhs: DerivedTypeVar, rhs: DerivedTypeVar) -> SubtypeConstraint {
    SubtypeConstraint::new(lhs, rhs)
}

fn d(n: &str, p: Vec<FieldLabel>) -> DerivedTypeVar {
    DerivedTypeVar::create_with_path(TypeVariable::new(n.to_string()), p)
}

#[test]
fn sketch_shares_prefixes() {
    let cons = vec![
        sub(d("f", vec![]), d("g", vec![FieldLabel::In(0)])),
        sub(d("g", vec![FieldLabel::In(0), FieldLabel::Load]), d("h", vec![])),
        sub(d("g", vec![FieldLabel::Out(0)]), d("g", vec![FieldLabel::In(0)])),
    ];
    let b = LatticeBounds::new("bot".to_string(), "top".to_string());
    let g = build_sketch(&TypeVariable::new("g".to_string()), &cons, &b);
    assert_eq!(g.nodes.len(), 4);
    assert_eq!(g.edges.len(), 3);
    let n1 = g.child(0, FieldLabel::In(0)).unwrap();
    assert!(g.child(n1, FieldLabel::Load).is_some());
    assert!(g.child(0, FieldLabel::Out(0)).is_some());
    assert!(g.child(0, FieldLabel::Store).is_none());
}

#[test]
fn pointer_round_trip_from_constraints() {
    let cons = vec![
        sub(d("f", vec![]), d("g", vec![FieldLabel::In(0)])),
        sub(d("g", vec![FieldLabel::In(0), FieldLabel::Load]), d("h", vec![])),
    ];
    let b = LatticeBounds::new("bot".to_string(), "top".to_string());
    let g = build_sketch(&TypeVariable::new("g".to_string()), &cons, &b);
    let ctx = LoweringContext::new(&g, &vec![], &vec![], b.clone());
    let (m, types) = ctx.collect_ctypes().unwrap();
    let ty = |id| types.iter().find(|(i, _)| *i == id).unwrap().1.clone();
    let p = g.child(0, FieldLabel::In(0)).unwrap();
    match ty(m[0]) {
        CType::Function { params, return_ty } => {
            assert_eq!(params.len(), 1);
            assert!(matches!(ty(params[0].type_index), CType::Alias(n) if n.0 == p));
            assert!(return_ty.is_none());
        }
        other => panic!("expected a function, got {:?}", other),
    }
    assert!(matches!(ty(m[p]), CType::Pointer { .. }));
}

#[test]
fn lattice_bounds_follow_constants() {
    let lat = LinearLattice {
        names: vec!["bottom".to_string(), "char".to_string(), "int".to_string(), "top".to_string()],
    };
    let cons = vec![
        sub(d("int", vec![]), d("g", vec![FieldLabel::In(0)])),
        sub(d("char", vec![]), d("g", vec![FieldLabel::In(0)])),
        sub(d("g", vec![FieldLabel::Out(0)]), d("int", vec![])),
        sub(d("g", vec![FieldLabel::Out(0)]), d("char", vec![])),
        sub(d("g", vec![FieldLabel::Load]), d("char", vec![])),
        sub(d("int", vec![]), d("g", vec![FieldLabel::Load])),
        sub(d("unknown", vec![]), d("g", vec![FieldLabel::Store])),
    ];
    let b = LatticeBounds::new("bottom".to_string(), "top".to_string());
    let root = TypeVariable::new("g".to_string());
    let g = build_sketch(&root, &cons, &b);
    let r = lattice_bounds(&g, &root, &cons, &lat);
    let at = |l: FieldLabel| r[g.child(0, l).unwrap()];
    assert_eq!(r[0], (0, 3));
    assert_eq!(at(FieldLabel::In(0)), (2, 3));
    assert_eq!(at(FieldLabel::Out(0)), (0, 1));
    let load = at(FieldLabel::Load);
    assert!(load.0 > load.1);
    assert_eq!(at(FieldLabel::Store), (0, 3));
}

struct NegMem;

impl PointsToMapping for NegMem {
    fn points_to(&self, _address: &Expression, sz: usize, _vman: &mut VariableManager) -> Vec<TypeVariableAccess> {
        vec![
            TypeVariableAccess { ty_var: TypeVariable::new("stack".to_string()), offset: Some(-8), sz },
            TypeVariableAccess { ty_var: TypeVariable::new("heap".to_string()), offset: Some(0), sz },
        ]
    }
}

#[test]
fn duplicate_constraints_are_removed() {
    let defs = vec![Def::Assign { var: var("RAX", 8), value: Expression::Var(var("RBX", 8)) }];
    let graph = vec![Node::BlkStart(defs.clone()), Node::BlkStart(defs)];
    let ctxs = vec![Some(NodeContext::new(Regs, Mem)), Some(NodeContext::new(Regs, Mem))];
    let mut ctx = Context::<Regs, Mem, Locs>::new(graph, ctxs);
    assert_eq!(render_set(&ctx.generate_constraints()), vec!["RBX_def <= RAX_def".to_string()]);
}

#[test]
fn negative_offsets_never_reach_constraints() {
    let nc = NodeContext::new(Regs, NegMem);
    let defs = vec![Def::Load { var: var("RCX", 4), address: Expression::Other }];
    let mut vm = VariableManager::new();
    let cs = nc.handle_block_start(&defs, &mut vm);
    assert_eq!(
        render_set(&cs),
        vec!["heap.Field(Field { offset: 0, size: 32 }).Load <= RCX_def".to_string()]
    );
}

struct Locs;

impl SubprocedureLocators for Locs {
    fn get_type_variables_and_constraints_for_arg<R: RegisterMapping, P: PointsToMapping>(
        arg: &Arg,
        reg: &R,
        _points_to: &P,
        vm: &mut VariableManager,
    ) -> (Vec<TypeVariable>, ConstraintSet) {
        match arg {
            Arg::Register(v) => {
                let (t, cs) = reg.access(v, vm);
                (vec![t], cs)
            }
            Arg::Stack { .. } => (vec![], ConstraintSet::empty()),
        }
    }
}

#[test]
fn call_sites_relate_actuals_and_formals() {
    let callee = TypeVariable::new("sub_7".to_string());
    let graph = vec![
        Node::CallSource { callee: callee.clone(), args: vec![Arg::Register(var("RDI", 8)), Arg::Register(var("RSI", 8))] },
        Node::CallReturn { callee, rets: vec![Arg::Register(var("RAX", 8))] },
    ];
    let ctxs = vec![Some(NodeContext::new(Regs, Mem)), Some(NodeContext::new(Regs, Mem))];
    let mut ctx = Context::<Regs, Mem, Locs>::new(graph, ctxs);
    assert_eq!(
        render_set(&ctx.generate_constraints()),
        vec![
            "RDI_def <= sub_7.In(0)".to_string(),
            "RSI_def <= sub_7.In(1)".to_string(),
            "sub_7.Out(0) <= RAX_def".to_string(),
        ]
    );
}
