//! Generation of subtype constraints from the definitions of a program.
use vstd::prelude::*;
use crate::util::reversed;
use crate::node_context::points_to::string_of;
use crate::constraints::{dedup_views, views_of, 
    ConstraintSet, DerivedTypeVar, DerivedTypeVarView, Field, FieldLabel, SubtypeConstraint,
    TyConstraint, TypeVariable,
};

verus! {

/// A memory access resolved to an abstract object: the object's type
/// variable, the offset of the access within it where it is known and not
/// negative, and the size of the access in bytes.
#[derive(Clone, Debug)]
pub struct TypeVariableAccess {
    pub ty_var: TypeVariable,
    pub offset: Option<i64>,
    pub sz: usize,
}

/// A register, with its size in bytes.
#[derive(Clone, Debug)]
pub struct Variable {
    pub name: String,
    pub size: usize,
}

/// An expression, as far as constraint generation reads it.
#[derive(Clone, Debug)]
pub enum Expression {
    /// The value of a register.
    Var(Variable),
    /// Any other expression.
    Other,
}

/// A definition inside a block.
#[derive(Clone, Debug)]
pub enum Def {
    /// `var := value`.
    Assign { var: Variable, value: Expression },
    /// `var := *address`.
    Load { var: Variable, address: Expression },
    /// `*address := value`.
    Store { address: Expression, value: Expression },
}

/// A node of the control-flow graph.
#[derive(Clone, Debug)]
pub enum Node {
    /// The start of a block, with its definitions.
    BlkStart(Vec<Def>),
    /// The end of a block.
    BlkEnd,
    /// A call site: the callee's variable and its formal arguments.
    CallSource { callee: TypeVariable, args: Vec<Arg> },
    /// The return from a call: the callee's variable and its formal returns.
    CallReturn { callee: TypeVariable, rets: Vec<Arg> },
}

/// Hands out fresh type variables, `fresh_0`, `fresh_1`, and so on.
#[derive(Clone, Debug)]
pub struct VariableManager {
    pub curr_id: usize,
}

/// The decimal digits of `n`.
pub open spec fn decimal(n: nat) -> Seq<char>
    decreases n,
{
    if n < 10 {
        seq![digit_char(n)]
    } else {
        decimal(n / 10).push(digit_char(n % 10))
    }
}

/// The character of a digit.
pub open spec fn digit_char(d: nat) -> char {
    if d == 0 { '0' } else if d == 1 { '1' } else if d == 2 { '2' } else if d == 3 { '3' }
    else if d == 4 { '4' } else if d == 5 { '5' } else if d == 6 { '6' } else if d == 7 { '7' }
    else if d == 8 { '8' } else { '9' }
}

/// The name of the `n`-th fresh variable.
pub open spec fn fresh_name(n: nat) -> Seq<char> {
    seq!['f', 'r', 'e', 's', 'h', '_'] + decimal(n)
}

fn digit(d: usize) -> (r: char)
    requires
        d < 10,
    ensures
        r == digit_char(d as nat),
{
    if d == 0 { '0' } else if d == 1 { '1' } else if d == 2 { '2' } else if d == 3 { '3' }
    else if d == 4 { '4' } else if d == 5 { '5' } else if d == 6 { '6' } else if d == 7 { '7' }
    else if d == 8 { '8' } else { '9' }
}

pub(crate) fn decimal_chars(n: u128, out: &mut Vec<char>)
    ensures
        final(out)@ == old(out)@ + decimal(n as nat),
    decreases n,
{
    if n < 10 {
        out.push(digit(n as usize));
        assert(decimal(n as nat) == seq![digit_char(n as nat)]);
        assert(final(out)@ =~= old(out)@ + decimal(n as nat));
    } else {
        decimal_chars(n / 10, out);
        out.push(digit((n % 10) as usize));
        assert(out@ =~= old(out)@ + decimal(n as nat));
    }
}

impl VariableManager {
    /// A manager whose first fresh variable is `fresh_0`.
    pub fn new() -> (r: VariableManager)
        ensures
            r.curr_id == 0,
    {
        VariableManager { curr_id: 0 }
    }

    /// The next fresh variable.
    pub fn fresh(&mut self) -> (r: TypeVariable)
        requires
            old(self).curr_id < usize::MAX,
        ensures
            r@ == fresh_name(old(self).curr_id as nat),
            final(self).curr_id == old(self).curr_id + 1,
    {
        let mut cs: Vec<char> = vec!['f', 'r', 'e', 's', 'h', '_'];
        assert(cs@ =~= seq!['f', 'r', 'e', 's', 'h', '_']);
        decimal_chars(self.curr_id as u128, &mut cs);
        self.curr_id = self.curr_id + 1;
        TypeVariable::new(string_of(&cs))
    }
}

/// Gives the type variable that stands for a register at a program point,
/// with any constraints that tie it to the register's reaching definitions.
pub trait RegisterMapping {
    fn access(&self, var: &Variable, vman: &mut VariableManager) -> (TypeVariable, ConstraintSet);
}

/// Gives the memory objects an address expression may point to.
pub trait PointsToMapping {
    fn points_to(&self, address: &Expression, sz: usize, vman: &mut VariableManager) -> Vec<TypeVariableAccess>;
}

/// A formal argument: a register, or a stack slot of the given size in bytes.
#[derive(Clone, Debug)]
pub enum Arg {
    Register(Variable),
    Stack { address: Expression, size: usize },
}

/// Relates the formal arguments and returns of a subprocedure to the type
/// variables of their actual values at a call site.
pub trait SubprocedureLocators {
    fn get_type_variables_and_constraints_for_arg<R: RegisterMapping, P: PointsToMapping>(
        arg: &Arg,
        reg: &R,
        points_to: &P,
        vm: &mut VariableManager,
    ) -> (Vec<TypeVariable>, ConstraintSet);
}

/// The derived type variable `base.labels`.
pub open spec fn dtv(base: Seq<char>, labels: Seq<FieldLabel>) -> DerivedTypeVarView {
    DerivedTypeVarView { base, path: labels }
}

/// The field label of an access at `off`, `bits` wide.
pub open spec fn access_label(off: i64, bits: usize) -> FieldLabel {
    FieldLabel::Field(Field { offset: off, size: bits })
}

/// For a load into `dst`, one constraint `obj.Field(off, bits).Load <= dst`
/// per access with a known, non-negative offset, in order.
pub open spec fn load_spec(dst: Seq<char>, accs: Seq<TypeVariableAccess>, bits: usize) -> Seq<(DerivedTypeVarView, DerivedTypeVarView)>
    decreases accs.len(),
{
    if accs.len() == 0 {
        Seq::empty()
    } else {
        let rest = load_spec(dst, accs.drop_last(), bits);
        match accs.last().offset {
            Some(off) => if off >= 0 {
                rest.push((dtv(accs.last().ty_var@, seq![access_label(off, bits), FieldLabel::Load]), dtv(dst, seq![])))
            } else {
                rest
            },
            None => rest,
        }
    }
}

/// For a store of `value`, one constraint `value <= obj.Field(off, bits).Store`
/// per access with a known, non-negative offset, in order.
pub open spec fn store_spec(value: Seq<char>, accs: Seq<TypeVariableAccess>, bits: usize) -> Seq<(DerivedTypeVarView, DerivedTypeVarView)>
    decreases accs.len(),
{
    if accs.len() == 0 {
        Seq::empty()
    } else {
        let rest = store_spec(value, accs.drop_last(), bits);
        match accs.last().offset {
            Some(off) => if off >= 0 {
                rest.push((dtv(value, seq![]), dtv(accs.last().ty_var@, seq![access_label(off, bits), FieldLabel::Store])))
            } else {
                rest
            },
            None => rest,
        }
    }
}

/// Every field label of a derived type variable has a non-negative offset.
pub open spec fn offsets_non_negative(d: DerivedTypeVarView) -> bool {
    forall|i: int| 0 <= i < d.path.len() ==> match #[trigger] d.path[i] {
        FieldLabel::Field(f) => f.offset >= 0,
        _ => true,
    }
}

/// No constraint made for a load or a store carries a field at a negative
/// offset, whatever offsets the points-to mapping handed back.
pub proof fn lemma_no_negative_offsets(v: Seq<char>, accs: Seq<TypeVariableAccess>, bits: usize)
    ensures
        forall|i: int| 0 <= i < load_spec(v, accs, bits).len() ==> offsets_non_negative((#[trigger] load_spec(v, accs, bits)[i]).0)
            && offsets_non_negative(load_spec(v, accs, bits)[i].1),
        forall|i: int| 0 <= i < store_spec(v, accs, bits).len() ==> offsets_non_negative((#[trigger] store_spec(v, accs, bits)[i]).0)
            && offsets_non_negative(store_spec(v, accs, bits)[i].1),
    decreases accs.len(),
{
    if accs.len() > 0 {
        lemma_no_negative_offsets(v, accs.drop_last(), bits);
        let l = load_spec(v, accs, bits);
        let lr = load_spec(v, accs.drop_last(), bits);
        assert forall|i: int| 0 <= i < l.len() implies offsets_non_negative((#[trigger] l[i]).0) && offsets_non_negative(l[i].1) by {
            if i < lr.len() {
                assert(l[i] == lr[i]);
            }
        }
        let st = store_spec(v, accs, bits);
        let sr = store_spec(v, accs.drop_last(), bits);
        assert forall|i: int| 0 <= i < st.len() implies offsets_non_negative((#[trigger] st[i]).0) && offsets_non_negative(st[i].1) by {
            if i < sr.len() {
                assert(st[i] == sr[i]);
            }
        }
    }
}

/// Subtype constraints as constraints of the set, in order.
pub open spec fn as_set(ls: Seq<SubtypeConstraint>) -> Seq<TyConstraint> {
    ls.map_values(|c: SubtypeConstraint| TyConstraint::SubTy(c))
}

/// `t` is a subtype constraint between two variables without labels.
pub open spec fn bare_subty(t: TyConstraint) -> bool {
    match t {
        TyConstraint::SubTy(c) => c@.0.path.len() == 0 && c@.1.path.len() == 0,
        _ => false,
    }
}

/// `r` ends with the constraints `ls`.
pub open spec fn ends_with(r: Seq<TyConstraint>, ls: Seq<SubtypeConstraint>) -> bool {
    r.len() >= ls.len() && r.skip(r.len() - ls.len()) == as_set(ls)
}

/// What `handle_def` makes of a definition, for any results of the register
/// and points-to mappings (they carry no contract, so their results appear
/// here as arbitrary values): for a copy between registers, a subtype
/// constraint between two unlabelled variables stands among the mappings'
/// constraints; for a load or a store of a register, the result is some
/// constraints followed by exactly those of `load_spec` / `store_spec` over
/// some variable and some accesses; nothing for a value that is not a
/// register.
pub open spec fn def_result(d: Def, r: Seq<TyConstraint>) -> bool {
    match d {
        Def::Assign { value: Expression::Var(_), .. } => exists|i: int| 0 <= i < r.len() && bare_subty(#[trigger] r[i]),
        Def::Assign { value: Expression::Other, .. } => r.len() == 0,
        Def::Load { var, .. } => exists|ls: Seq<SubtypeConstraint>, dst: Seq<char>, accs: Seq<TypeVariableAccess>|
            #![trigger ends_with(r, ls), load_spec(dst, accs, (var.size * 8) as usize)]
            ends_with(r, ls) && subty_views(ls) == load_spec(dst, accs, (var.size * 8) as usize),
        Def::Store { value: Expression::Var(v), .. } => exists|ls: Seq<SubtypeConstraint>, src: Seq<char>, accs: Seq<TypeVariableAccess>|
            #![trigger ends_with(r, ls), store_spec(src, accs, (v.size * 8) as usize)]
            ends_with(r, ls) && subty_views(ls) == store_spec(src, accs, (v.size * 8) as usize),
        Def::Store { value: Expression::Other, .. } => r.len() == 0,
    }
}

/// The concatenation of a sequence of constraint lists.
pub open spec fn concat_all(parts: Seq<Seq<TyConstraint>>) -> Seq<TyConstraint>
    decreases parts.len(),
{
    if parts.len() == 0 {
        Seq::empty()
    } else {
        concat_all(parts.drop_last()) + parts.last()
    }
}

/// `r` is the constraints of each definition of `defs`, in order.
pub open spec fn block_result(defs: Seq<Def>, r: Seq<TyConstraint>) -> bool {
    exists|parts: Seq<Seq<TyConstraint>>| #[trigger] concat_all(parts) == r && parts.len() == defs.len()
        && forall|i: int| 0 <= i < defs.len() ==> def_result(defs[i], #[trigger] parts[i])
}

/// The views of a sequence of constraints.
pub open spec fn subty_views(s: Seq<SubtypeConstraint>) -> Seq<(DerivedTypeVarView, DerivedTypeVarView)> {
    s.map_values(|c: SubtypeConstraint| c@)
}

/// The constraints of a load of `bits` bits into `dst` through `accs`.
pub fn load_constraints(dst: &TypeVariable, accs: &Vec<TypeVariableAccess>, bits: usize) -> (r: Vec<SubtypeConstraint>)
    ensures
        subty_views(r@) == load_spec(dst@, accs@, bits),
{
    let mut r: Vec<SubtypeConstraint> = Vec::new();
    let mut i: usize = 0;
    while i < accs.len()
        invariant
            i <= accs@.len(),
            subty_views(r@) == load_spec(dst@, accs@.take(i as int), bits),
        decreases accs@.len() - i,
    {
        assert(accs@.take(i + 1).drop_last() =~= accs@.take(i as int));
        let kept: Option<i64> = match accs[i].offset {
            Some(o) => if o >= 0 { Some(o) } else { None },
            None => None,
        };
        if let Some(off) = kept {
            let mut lhs = DerivedTypeVar::new(accs[i].ty_var.duplicate());
            lhs.add_field_label(FieldLabel::Field(Field { offset: off, size: bits }));
            lhs.add_field_label(FieldLabel::Load);
            let rhs = DerivedTypeVar::new(dst.duplicate());
            let ghost before = r@;
            r.push(SubtypeConstraint::new(lhs, rhs));
            assert(lhs@.path =~= seq![access_label(off, bits), FieldLabel::Load]);
            assert(rhs@.path =~= Seq::<FieldLabel>::empty());
            assert(subty_views(r@) =~= subty_views(before).push((lhs@, rhs@)));
        }
        i = i + 1;
    }
    assert(accs@.take(i as int) =~= accs@);
    r
}

/// The constraints of a store of `bits` bits of `value` through `accs`.
pub fn store_constraints(value: &TypeVariable, accs: &Vec<TypeVariableAccess>, bits: usize) -> (r: Vec<SubtypeConstraint>)
    ensures
        subty_views(r@) == store_spec(value@, accs@, bits),
{
    let mut r: Vec<SubtypeConstraint> = Vec::new();
    let mut i: usize = 0;
    while i < accs.len()
        invariant
            i <= accs@.len(),
            subty_views(r@) == store_spec(value@, accs@.take(i as int), bits),
        decreases accs@.len() - i,
    {
        assert(accs@.take(i + 1).drop_last() =~= accs@.take(i as int));
        let kept: Option<i64> = match accs[i].offset {
            Some(o) => if o >= 0 { Some(o) } else { None },
            None => None,
        };
        if let Some(off) = kept {
            let mut rhs = DerivedTypeVar::new(accs[i].ty_var.duplicate());
            rhs.add_field_label(FieldLabel::Field(Field { offset: off, size: bits }));
            rhs.add_field_label(FieldLabel::Store);
            let lhs = DerivedTypeVar::new(value.duplicate());
            let ghost before = r@;
            r.push(SubtypeConstraint::new(lhs, rhs));
            assert(rhs@.path =~= seq![access_label(off, bits), FieldLabel::Store]);
            assert(lhs@.path =~= Seq::<FieldLabel>::empty());
            assert(subty_views(r@) =~= subty_views(before).push((lhs@, rhs@)));
        }
        i = i + 1;
    }
    assert(accs@.take(i as int) =~= accs@);
    r
}

/// The constraint `rhs <= lhs` of a copy from the register typed `rhs` into
/// the one typed `lhs`.
pub fn assign_constraint(rhs: &TypeVariable, lhs: &TypeVariable) -> (r: SubtypeConstraint)
    ensures
        r@ == (dtv(rhs@, seq![]), dtv(lhs@, seq![])),
{
    let r = SubtypeConstraint::new(DerivedTypeVar::new(rhs.duplicate()), DerivedTypeVar::new(lhs.duplicate()));
    assert(r@.0.path =~= Seq::<FieldLabel>::empty());
    r
}

/// The subtype constraints of `v` as a constraint set, in order.
pub fn subtys_to_set(v: Vec<SubtypeConstraint>) -> (r: ConstraintSet)
    ensures
        r.constraints@ == v@.map_values(|c: SubtypeConstraint| TyConstraint::SubTy(c)),
{
    let ghost v0 = v@;
    let mut v = v;
    let mut rev = reversed(v);
    assert(rev@.reverse() =~= v0);
    let mut cs = ConstraintSet::empty();
    while rev.len() > 0
        invariant
            cs.constraints@ + rev@.reverse().map_values(|c: SubtypeConstraint| TyConstraint::SubTy(c))
                == v0.map_values(|c: SubtypeConstraint| TyConstraint::SubTy(c)),
        decreases rev@.len(),
    {
        let c = rev.pop().unwrap();
        let ghost before = cs.constraints@;
        cs.insert(TyConstraint::SubTy(c));
        assert(rev@.push(c).reverse() =~= seq![c] + rev@.reverse());
        assert((seq![c] + rev@.reverse()).map_values(|c: SubtypeConstraint| TyConstraint::SubTy(c))
            =~= seq![TyConstraint::SubTy(c)] + rev@.reverse().map_values(|c: SubtypeConstraint| TyConstraint::SubTy(c)));
        assert(cs.constraints@ + rev@.reverse().map_values(|c: SubtypeConstraint| TyConstraint::SubTy(c))
            =~= before + (seq![TyConstraint::SubTy(c)] + rev@.reverse().map_values(|c: SubtypeConstraint| TyConstraint::SubTy(c))));
    }
    assert(rev@.reverse().map_values(|c: SubtypeConstraint| TyConstraint::SubTy(c)) =~= Seq::<TyConstraint>::empty());
    assert(cs.constraints@ =~= v0.map_values(|c: SubtypeConstraint| TyConstraint::SubTy(c)));
    cs
}

fn append_set(cs: &mut ConstraintSet, extra: ConstraintSet)
    ensures
        final(cs).constraints@ == old(cs).constraints@ + extra.constraints@,
{
    let ghost c0 = cs.constraints@;
    let mut extra = extra;
    let ghost e0 = extra.constraints@;
    let mut rev: Vec<TyConstraint> = Vec::new();
    while extra.constraints.len() > 0
        invariant
            e0 == extra.constraints@ + rev@.reverse(),
            cs.constraints@ == c0,
        decreases extra.constraints@.len(),
    {
        let c = extra.constraints.pop().unwrap();
        let ghost before = rev@;
        rev.push(c);
        assert(rev@.reverse() =~= seq![c] + before.reverse());
        assert(extra.constraints@ + rev@.reverse() =~= (extra.constraints@ + seq![c]) + before.reverse());
    }
    assert(extra.constraints@ + rev@.reverse() =~= rev@.reverse());
    while rev.len() > 0
        invariant
            cs.constraints@ + rev@.reverse() == c0 + e0,
        decreases rev@.len(),
    {
        let c = rev.pop().unwrap();
        let ghost before = cs.constraints@;
        cs.insert(c);
        assert(rev@.push(c).reverse() =~= seq![c] + rev@.reverse());
        assert(cs.constraints@ =~= before.push(c));
        assert(cs.constraints@ + rev@.reverse() =~= before + (seq![c] + rev@.reverse()));
    }
    assert(rev@.reverse() =~= Seq::<TyConstraint>::empty());
    assert(cs.constraints@ =~= c0 + e0);
}

/// What constraint generation needs at one program point: the register
/// mapping and the points-to mapping there.
pub struct NodeContext<R: RegisterMapping, P: PointsToMapping> {
    pub reg_map: R,
    pub points_to: P,
}

impl<R: RegisterMapping, P: PointsToMapping> NodeContext<R, P> {
    /// A context from its two mappings.
    pub fn new(reg_map: R, points_to: P) -> (r: NodeContext<R, P>)
        ensures
            r.reg_map == reg_map,
            r.points_to == points_to,
    {
        NodeContext { reg_map, points_to }
    }

    /// The constraints of assigning `value` to a register typed `lhs_type_var`:
    /// where `value` is a register, its type is a subtype of the target's,
    /// together with the constraints its access brings; otherwise none.
    fn generate_expression_constraint(&self, lhs_type_var: &TypeVariable, value: &Expression, vman: &mut VariableManager) -> (r: ConstraintSet)
        ensures
            value is Other ==> r.constraints@.len() == 0 && *final(vman) == *old(vman),
            value is Var ==> r.constraints@.len() >= 1 && match r.constraints@[0] {
                TyConstraint::SubTy(c) => c@.1 == dtv(lhs_type_var@, seq![]) && c@.0.path.len() == 0,
                _ => false,
            },
    {
        match value {
            Expression::Var(v2) => {
                let (rhs_type_var, additional) = self.reg_map.access(v2, vman);
                let mut s = ConstraintSet::empty();
                let c = assign_constraint(&rhs_type_var, lhs_type_var);
                s.insert(TyConstraint::SubTy(c));
                let ghost first = s.constraints@[0];
                append_set(&mut s, additional);
                assert(s.constraints@[0] == first);
                s
            },
            Expression::Other => ConstraintSet::empty(),
        }
    }

    /// The constraints of one definition: an assignment relates the value to
    /// the target register; a load relates each field it may read to the
    /// target register; a store relates the stored register to each field it
    /// may write.
    pub fn handle_def(&self, df: &Def, vman: &mut VariableManager) -> (r: ConstraintSet)
        requires
            match df {
                Def::Load { var, .. } => var.size <= usize::MAX / 8,
                Def::Store { value: Expression::Var(v), .. } => v.size <= usize::MAX / 8,
                _ => true,
            },
        ensures
            def_result(*df, r.constraints@),
    {
        match df {
            Def::Assign { var, value } => {
                let (lhs, mut cs) = self.reg_map.access(var, vman);
                if let Expression::Other = value {
                    return ConstraintSet::empty();
                }
                let e = self.generate_expression_constraint(&lhs, value, vman);
                let ghost c0 = cs.constraints@;
                let ghost e0 = e.constraints@;
                append_set(&mut cs, e);
                assert(cs.constraints@[c0.len() as int] == e0[0]);
                assert(bare_subty(cs.constraints@[c0.len() as int]));
                cs
            },
            Def::Load { var, address } => {
                let (dst, mut cs) = self.reg_map.access(var, vman);
                let accs = self.points_to.points_to(address, var.size, vman);
                let ls = load_constraints(&dst, &accs, var.size * 8);
                let ghost lsv = ls@;
                let ghost c0 = cs.constraints@;
                append_set(&mut cs, subtys_to_set(ls));
                assert(cs.constraints@.skip(cs.constraints@.len() - lsv.len()) =~= as_set(lsv));
                assert(ends_with(cs.constraints@, lsv));
                cs
            },
            Def::Store { address, value } => {
                match value {
                    Expression::Var(v) => {
                        let (src, mut cs) = self.reg_map.access(v, vman);
                        let accs = self.points_to.points_to(address, v.size, vman);
                        let ls = store_constraints(&src, &accs, v.size * 8);
                        let ghost lsv = ls@;
                        append_set(&mut cs, subtys_to_set(ls));
                        assert(cs.constraints@.skip(cs.constraints@.len() - lsv.len()) =~= as_set(lsv));
                        assert(ends_with(cs.constraints@, lsv));
                        cs
                    },
                    Expression::Other => ConstraintSet::empty(),
                }
            },
        }
    }

    /// The constraints of the definitions of a block, in order.
    pub fn handle_block_start(&self, defs: &Vec<Def>, vman: &mut VariableManager) -> (r: ConstraintSet)
        requires
            forall|i: int| 0 <= i < defs@.len() ==> def_sizes_fit(#[trigger] defs@[i]),
        ensures
            block_result(defs@, r.constraints@),
    {
        let mut cs = ConstraintSet::empty();
        let mut i: usize = 0;
        let ghost mut parts: Seq<Seq<TyConstraint>> = Seq::empty();
        assert(cs.constraints@ =~= concat_all(parts));
        while i < defs.len()
            invariant
                i <= defs@.len(),
                forall|j: int| 0 <= j < defs@.len() ==> def_sizes_fit(#[trigger] defs@[j]),
                parts.len() == i,
                cs.constraints@ == concat_all(parts),
                forall|j: int| 0 <= j < i ==> def_result(defs@[j], #[trigger] parts[j]),
            decreases defs@.len() - i,
        {
            assert(def_sizes_fit(defs@[i as int]));
            let d = self.handle_def(&defs[i], vman);
            let ghost dv = d.constraints@;
            append_set(&mut cs, d);
            proof {
                let old_parts = parts;
                parts = parts.push(dv);
                assert(parts.drop_last() =~= old_parts);
                assert forall|j: int| 0 <= j < i + 1 implies def_result(defs@[j], #[trigger] parts[j]) by {
                    if j < i {
                        assert(parts[j] == old_parts[j]);
                    }
                }
            }
            i = i + 1;
        }
        cs
    }
}

/// The sizes of the registers a definition reads or writes through memory
/// fit in bits.
pub open spec fn def_sizes_fit(d: Def) -> bool {
    match d {
        Def::Load { var, .. } => var.size <= usize::MAX / 8,
        Def::Store { value: Expression::Var(v), .. } => v.size <= usize::MAX / 8,
        _ => true,
    }
}

/// The definitions of every block-start node fit `def_sizes_fit`.
pub open spec fn graph_sizes_fit(graph: Seq<Node>) -> bool {
    forall|i: int| 0 <= i < graph.len() ==> node_sizes_fit(#[trigger] graph[i])
}

/// The definitions of a block-start node fit `def_sizes_fit`.
pub open spec fn node_sizes_fit(n: Node) -> bool {
    match n {
        Node::BlkStart(defs) => forall|j: int| 0 <= j < defs@.len() ==> def_sizes_fit(#[trigger] defs@[j]),
        _ => true,
    }
}

/// Whether node `i` contributes constraints: it starts a block with at least
/// one definition and has a context.
pub open spec fn contributes<R: RegisterMapping, P: PointsToMapping>(graph: Seq<Node>, ctxs: Seq<Option<NodeContext<R, P>>>, i: int) -> bool {
    &&& i < ctxs.len()
    &&& ctxs[i] is Some
    &&& match graph[i] {
        Node::BlkStart(defs) => defs@.len() > 0,
        Node::CallSource { args, .. } => args@.len() > 0,
        Node::CallReturn { rets, .. } => rets@.len() > 0,
        Node::BlkEnd => false,
    }
}

/// What node `i` contributes: the constraints of its block's definitions
/// where it starts a block and has a context, none otherwise.
pub open spec fn node_result<R: RegisterMapping, P: PointsToMapping>(graph: Seq<Node>, ctxs: Seq<Option<NodeContext<R, P>>>, i: int, r: Seq<TyConstraint>) -> bool {
    if 0 <= i < ctxs.len() && ctxs[i] is Some {
        match graph[i] {
            Node::BlkStart(defs) => block_result(defs@, r),
            Node::CallSource { callee, args } => call_result(callee@, args@.len(), true, r),
            Node::CallReturn { callee, rets } => call_result(callee@, rets@.len(), false, r),
            Node::BlkEnd => r.len() == 0,
        }
    } else {
        r.len() == 0
    }
}

/// The constraints relating the variables `tvs` of an actual value to formal
/// `k` of `callee`: `t <= callee.In(k)` at a call site, `callee.Out(k) <= t`
/// at a return.
pub open spec fn call_spec(callee: Seq<char>, k: usize, into_callee: bool, tvs: Seq<TypeVariable>) -> Seq<(DerivedTypeVarView, DerivedTypeVarView)> {
    tvs.map_values(|t: TypeVariable| if into_callee {
        (dtv(t@, seq![]), dtv(callee, seq![FieldLabel::In(k)]))
    } else {
        (dtv(callee, seq![FieldLabel::Out(k)]), dtv(t@, seq![]))
    })
}

/// The constraints of formal `k`: some constraints of the locator, followed
/// by exactly those of `call_spec` over the variables it gave.
pub open spec fn arg_part(callee: Seq<char>, k: usize, into_callee: bool, p: Seq<TyConstraint>) -> bool {
    exists|ls: Seq<SubtypeConstraint>, tvs: Seq<TypeVariable>|
        #![trigger ends_with(p, ls), call_spec(callee, k, into_callee, tvs)]
        ends_with(p, ls) && subty_views(ls) == call_spec(callee, k, into_callee, tvs)
}

/// The constraints of a call node: those of each of its `n` formals, in order.
pub open spec fn call_result(callee: Seq<char>, n: nat, into_callee: bool, r: Seq<TyConstraint>) -> bool {
    exists|parts: Seq<Seq<TyConstraint>>| #[trigger] concat_all(parts) == r && parts.len() == n
        && forall|k: int| 0 <= k < n ==> arg_part(callee, k as usize, into_callee, #[trigger] parts[k])
}

/// The constraints between the variables `tvs` and formal `k` of `callee`.
pub fn call_constraints(callee: &TypeVariable, k: usize, into_callee: bool, tvs: &Vec<TypeVariable>) -> (r: Vec<SubtypeConstraint>)
    ensures
        subty_views(r@) == call_spec(callee@, k, into_callee, tvs@),
{
    let mut r: Vec<SubtypeConstraint> = Vec::new();
    let mut i: usize = 0;
    while i < tvs.len()
        invariant
            i <= tvs@.len(),
            subty_views(r@) == call_spec(callee@, k, into_callee, tvs@.take(i as int)),
        decreases tvs@.len() - i,
    {
        let mut formal = DerivedTypeVar::new(callee.duplicate());
        formal.add_field_label(if into_callee { FieldLabel::In(k) } else { FieldLabel::Out(k) });
        let actual = DerivedTypeVar::new(tvs[i].duplicate());
        let c = if into_callee { SubtypeConstraint::new(actual, formal) } else { SubtypeConstraint::new(formal, actual) };
        let ghost before = r@;
        r.push(c);
        proof {
            assert(formal@.path =~= seq![if into_callee { FieldLabel::In(k) } else { FieldLabel::Out(k) }]);
            assert(actual@.path =~= Seq::<FieldLabel>::empty());
            assert(tvs@.take(i + 1) =~= tvs@.take(i as int).push(tvs@[i as int]));
            assert(subty_views(r@) =~= subty_views(before).push(c@));
            assert(call_spec(callee@, k, into_callee, tvs@.take(i + 1)) =~= call_spec(callee@, k, into_callee, tvs@.take(i as int)).push(c@));
        }
        i = i + 1;
    }
    assert(tvs@.take(i as int) =~= tvs@);
    r
}

/// The constraints of a call node: for each formal, what the locator gives
/// for it, then the constraints relating its variables to the formal.
fn call_node_constraints<R: RegisterMapping, P: PointsToMapping, S: SubprocedureLocators>(
    nc: &NodeContext<R, P>,
    callee: &TypeVariable,
    args: &Vec<Arg>,
    into_callee: bool,
    vman: &mut VariableManager,
) -> (r: ConstraintSet)
    ensures
        call_result(callee@, args@.len(), into_callee, r.constraints@),
{
    let mut cs = ConstraintSet::empty();
    let mut k: usize = 0;
    let ghost mut parts: Seq<Seq<TyConstraint>> = Seq::empty();
    assert(cs.constraints@ =~= concat_all(parts));
    while k < args.len()
        invariant
            k <= args@.len(),
            parts.len() == k,
            cs.constraints@ == concat_all(parts),
            forall|j: int| 0 <= j < k ==> arg_part(callee@, j as usize, into_callee, #[trigger] parts[j]),
        decreases args@.len() - k,
    {
        let (tvs, mut extra) = S::get_type_variables_and_constraints_for_arg(&args[k], &nc.reg_map, &nc.points_to, vman);
        let ls = call_constraints(callee, k, into_callee, &tvs);
        let ghost lsv = ls@;
        append_set(&mut extra, subtys_to_set(ls));
        assert(extra.constraints@.skip(extra.constraints@.len() - lsv.len()) =~= as_set(lsv));
        assert(ends_with(extra.constraints@, lsv));
        assert(arg_part(callee@, k, into_callee, extra.constraints@));
        let ghost pv = extra.constraints@;
        append_set(&mut cs, extra);
        proof {
            let old_parts = parts;
            parts = parts.push(pv);
            assert(parts.drop_last() =~= old_parts);
            assert forall|j: int| 0 <= j < k + 1 implies arg_part(callee@, j as usize, into_callee, #[trigger] parts[j]) by {
                if j < k {
                    assert(parts[j] == old_parts[j]);
                }
            }
        }
        k = k + 1;
    }
    cs
}

/// `r` is the contributions of the nodes, in node order, each constraint
/// kept once, at its first occurrence.
pub open spec fn graph_result<R: RegisterMapping, P: PointsToMapping>(graph: Seq<Node>, ctxs: Seq<Option<NodeContext<R, P>>>, r: Seq<TyConstraint>) -> bool {
    exists|parts: Seq<Seq<TyConstraint>>| #[trigger] dedup_views(concat_all(parts)) == views_of(r) && parts.len() == graph.len()
        && forall|i: int| 0 <= i < graph.len() ==> node_result(graph, ctxs, i, #[trigger] parts[i])
}

/// The control-flow graph, a context for each of its nodes that has one, and
/// the manager of fresh variables.
pub struct Context<R: RegisterMapping, P: PointsToMapping, S: SubprocedureLocators> {
    pub graph: Vec<Node>,
    pub node_contexts: Vec<Option<NodeContext<R, P>>>,
    pub vman: VariableManager,
    pub locators: std::marker::PhantomData<S>,
}

impl<R: RegisterMapping, P: PointsToMapping, S: SubprocedureLocators> Context<R, P, S> {
    /// A context whose `i`-th node has the `i`-th entry of `node_contexts`.
    pub fn new(graph: Vec<Node>, node_contexts: Vec<Option<NodeContext<R, P>>>) -> (r: Context<R, P, S>)
        ensures
            r.graph@ == graph@,
            r.node_contexts@ == node_contexts@,
            r.vman.curr_id == 0,
    {
        Context { graph, node_contexts, vman: VariableManager::new(), locators: std::marker::PhantomData }
    }

    /// The constraints of node `i`: those of its block's definitions where it
    /// starts a block and has a context; none otherwise.
    fn generate_constraints_for_node(&mut self, i: usize) -> (r: ConstraintSet)
        requires
            i < old(self).graph@.len(),
            graph_sizes_fit(old(self).graph@),
        ensures
            final(self).graph@ == old(self).graph@,
            final(self).node_contexts@ == old(self).node_contexts@,
            !contributes(old(self).graph@, old(self).node_contexts@, i as int) ==> r.constraints@.len() == 0,
            node_result(old(self).graph@, old(self).node_contexts@, i as int, r.constraints@),
    {
        if i >= self.node_contexts.len() {
            return ConstraintSet::empty();
        }
        match &self.graph[i] {
            Node::BlkStart(defs) => {
                match &self.node_contexts[i] {
                    Some(nc) => {
                        assert(node_sizes_fit(self.graph@[i as int]));
                        nc.handle_block_start(defs, &mut self.vman)
                    },
                    None => ConstraintSet::empty(),
                }
            },
            Node::CallSource { callee, args } => {
                match &self.node_contexts[i] {
                    Some(nc) => call_node_constraints::<R, P, S>(nc, callee, args, true, &mut self.vman),
                    None => ConstraintSet::empty(),
                }
            },
            Node::CallReturn { callee, rets } => {
                match &self.node_contexts[i] {
                    Some(nc) => call_node_constraints::<R, P, S>(nc, callee, rets, false, &mut self.vman),
                    None => ConstraintSet::empty(),
                }
            },
            Node::BlkEnd => ConstraintSet::empty(),
        }
    }

    /// The constraints of every node, in the order of the nodes, each once.
    pub fn generate_constraints(&mut self) -> (r: ConstraintSet)
        requires
            graph_sizes_fit(old(self).graph@),
        ensures
            (forall|i: int| 0 <= i < old(self).graph@.len() ==> !#[trigger] contributes(old(self).graph@, old(self).node_contexts@, i))
                ==> r.constraints@.len() == 0,
            graph_result(old(self).graph@, old(self).node_contexts@, r.constraints@),
    {
        let mut cs = ConstraintSet::empty();
        let mut i: usize = 0;
        let ghost mut parts: Seq<Seq<TyConstraint>> = Seq::empty();
        assert(cs.constraints@ =~= concat_all(parts));
        while i < self.graph.len()
            invariant
                i <= self.graph@.len(),
                self.graph@ == old(self).graph@,
                self.node_contexts@ == old(self).node_contexts@,
                graph_sizes_fit(self.graph@),
                (forall|k: int| 0 <= k < i ==> !#[trigger] contributes(self.graph@, self.node_contexts@, k)) ==> cs.constraints@.len() == 0,
                parts.len() == i,
                cs.constraints@ == concat_all(parts),
                forall|j: int| 0 <= j < i ==> node_result(self.graph@, self.node_contexts@, j, #[trigger] parts[j]),
            decreases self.graph@.len() - i,
        {
            let c = self.generate_constraints_for_node(i);
            let ghost cv = c.constraints@;
            append_set(&mut cs, c);
            proof {
                let old_parts = parts;
                parts = parts.push(cv);
                assert(parts.drop_last() =~= old_parts);
                assert forall|j: int| 0 <= j < i + 1 implies node_result(self.graph@, self.node_contexts@, j, #[trigger] parts[j]) by {
                    if j < i {
                        assert(parts[j] == old_parts[j]);
                    }
                }
            }
            i = i + 1;
        }
        let r = cs.deduplicated();
        proof {
            if forall|k: int| 0 <= k < self.graph@.len() ==> !#[trigger] contributes(self.graph@, self.node_contexts@, k) {
                assert(cs.constraints@.len() == 0);
                assert(views_of(r.constraints@).len() == 0);
            }
        }
        r
    }
}

} // verus!
