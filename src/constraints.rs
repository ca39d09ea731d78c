//! Type variables, field labels, derived type variables and constraints.
use vstd::prelude::*;
use crate::util::reversed;
use vstd::string::StrSliceExecFns;
use crate::constraint_generation::{decimal, decimal_chars};
use crate::node_context::points_to::string_of;

verus! {

/// An access step on a type: a parameter or return index, a pointer
/// dereference, or a field of an aggregate.
#[derive(Clone, Copy, Debug, PartialEq, Eq, Structural)]
pub struct Field {
    /// Byte offset of the field inside its aggregate.
    pub offset: i64,
    /// Width of the field in bits.
    pub size: usize,
}

/// The label of one step of a derived type variable.
#[derive(Clone, Copy, Debug, PartialEq, Eq, Structural)]
pub enum FieldLabel {
    /// The formal parameter with the given index.
    In(usize),
    /// The formal return with the given index.
    Out(usize),
    /// Reading through a pointer.
    Load,
    /// Writing through a pointer.
    Store,
    /// An aggregate field.
    Field(Field),
}

/// Whether a label keeps or flips the direction of subtyping.
#[derive(Clone, Copy, Debug, PartialEq, Eq, Structural)]
pub enum Variance {
    Covariant,
    Contravariant,
}

/// `In` and `Store` are contravariant; every other label is covariant.
pub open spec fn label_variance(l: FieldLabel) -> Variance {
    match l {
        FieldLabel::In(_) | FieldLabel::Store => Variance::Contravariant,
        _ => Variance::Covariant,
    }
}

/// The product of two variances, as the product of two signs.
pub open spec fn compose(a: Variance, b: Variance) -> Variance {
    if a == b {
        Variance::Covariant
    } else {
        Variance::Contravariant
    }
}

/// The variance of a path: the product of the variances of its labels.
pub open spec fn path_variance(p: Seq<FieldLabel>) -> Variance
    decreases p.len(),
{
    if p.len() == 0 {
        Variance::Covariant
    } else {
        compose(path_variance(p.drop_last()), label_variance(p.last()))
    }
}

/// The number of contravariant labels on a path.
pub open spec fn contravariant_count(p: Seq<FieldLabel>) -> nat
    decreases p.len(),
{
    if p.len() == 0 {
        0
    } else {
        contravariant_count(p.drop_last()) + if label_variance(p.last())
            == Variance::Contravariant {
            1nat
        } else {
            0nat
        }
    }
}

impl Variance {
    /// The product of two variances.
    pub fn operate(&self, other: &Variance) -> (r: Variance)
        ensures
            r == compose(*self, *other),
    {
        if *self == *other {
            Variance::Covariant
        } else {
            Variance::Contravariant
        }
    }
}

impl FieldLabel {
    /// The variance of this label.
    pub fn variance(&self) -> (r: Variance)
        ensures
            r == label_variance(*self),
    {
        match self {
            FieldLabel::In(_) | FieldLabel::Store => Variance::Contravariant,
            _ => Variance::Covariant,
        }
    }
}

/// A path is contravariant exactly when it holds an odd number of
/// contravariant labels: variance composes as a product of signs.
pub proof fn lemma_variance_is_parity(p: Seq<FieldLabel>)
    ensures
        (path_variance(p) == Variance::Contravariant) == (contravariant_count(p) % 2 == 1),
    decreases p.len(),
{
    if p.len() > 0 {
        lemma_variance_is_parity(p.drop_last());
    }
}

/// The variance of a path followed by another is the product of the two.
pub proof fn lemma_variance_of_concat(p: Seq<FieldLabel>, q: Seq<FieldLabel>)
    ensures
        path_variance(p + q) == compose(path_variance(p), path_variance(q)),
    decreases q.len(),
{
    if q.len() == 0 {
        assert(p + q =~= p);
    } else {
        lemma_variance_of_concat(p, q.drop_last());
        assert((p + q).drop_last() =~= p + q.drop_last());
        assert((p + q).last() == q.last());
    }
}

/// A type variable: an interned name.
#[derive(Clone, Debug)]
pub struct TypeVariable {
    pub name: String,
}

impl View for TypeVariable {
    type V = Seq<char>;

    open spec fn view(&self) -> Seq<char> {
        self.name@
    }
}

impl TypeVariable {
    /// A type variable with the given name.
    pub fn new(name: String) -> (r: TypeVariable)
        ensures
            r@ == name@,
    {
        TypeVariable { name }
    }

    /// A copy of this variable.
    pub fn duplicate(&self) -> (r: TypeVariable)
        ensures
            r@ == self@,
    {
        TypeVariable { name: self.name.clone() }
    }

    /// The name of this variable.
    pub fn get_name(&self) -> (r: &String)
        ensures
            r@ == self@,
    {
        &self.name
    }
}

impl PartialEq for TypeVariable {
    fn eq(&self, other: &TypeVariable) -> (r: bool) {
        self.name == other.name
    }
}

impl vstd::std_specs::cmp::PartialEqSpecImpl for TypeVariable {
    open spec fn obeys_eq_spec() -> bool {
        true
    }

    open spec fn eq_spec(&self, other: &TypeVariable) -> bool {
        self@ == other@
    }
}


/// A base type variable followed by a path of field labels.
#[derive(Clone, Debug)]
pub struct DerivedTypeVar {
    pub var: TypeVariable,
    pub labels: Vec<FieldLabel>,
}

/// The mathematical value of a derived type variable: its base name and path.
pub struct DerivedTypeVarView {
    pub base: Seq<char>,
    pub path: Seq<FieldLabel>,
}

impl View for DerivedTypeVar {
    type V = DerivedTypeVarView;

    open spec fn view(&self) -> DerivedTypeVarView {
        DerivedTypeVarView { base: self.var@, path: self.labels@ }
    }
}

fn labels_equal(a: &Vec<FieldLabel>, b: &Vec<FieldLabel>) -> (r: bool)
    ensures
        r == (a@ == b@),
{
    if a.len() != b.len() {
        return false;
    }
    let mut i: usize = 0;
    while i < a.len()
        invariant
            a@.len() == b@.len(),
            i <= a@.len(),
            forall|j: int| 0 <= j < i ==> a@[j] == b@[j],
        decreases a@.len() - i,
    {
        if a[i] != b[i] {
            return false;
        }
        i = i + 1;
    }
    assert(a@ =~= b@);
    true
}

impl DerivedTypeVar {
    /// The derived type variable with an empty path on `var`.
    pub fn new(var: TypeVariable) -> (r: DerivedTypeVar)
        ensures
            r@.base == var@,
            r@.path == Seq::<FieldLabel>::empty(),
    {
        DerivedTypeVar { var, labels: Vec::new() }
    }

    /// The derived type variable on `var` with the given path.
    pub fn create_with_path(var: TypeVariable, labels: Vec<FieldLabel>) -> (r: DerivedTypeVar)
        ensures
            r@.base == var@,
            r@.path == labels@,
    {
        DerivedTypeVar { var, labels }
    }

    /// Appends one label to the path.
    pub fn add_field_label(&mut self, lab: FieldLabel)
        ensures
            final(self)@.base == old(self)@.base,
            final(self)@.path == old(self)@.path.push(lab),
    {
        self.labels.push(lab);
    }

    /// A copy of this derived type variable.
    pub fn duplicate(&self) -> (r: DerivedTypeVar)
        ensures
            r@ == self@,
    {
        DerivedTypeVar { var: self.var.duplicate(), labels: self.labels.clone() }
    }

    /// The base variable.
    pub fn get_base_variable(&self) -> (r: &TypeVariable)
        ensures
            r@ == self@.base,
    {
        &self.var
    }

    /// The path of labels.
    pub fn get_field_labels(&self) -> (r: &Vec<FieldLabel>)
        ensures
            r@ == self@.path,
    {
        &self.labels
    }

    /// The variance accumulated along the path.
    pub fn path_variance(&self) -> (r: Variance)
        ensures
            r == path_variance(self@.path),
    {
        let mut v = Variance::Covariant;
        let mut i: usize = 0;
        while i < self.labels.len()
            invariant
                i <= self.labels@.len(),
                v == path_variance(self.labels@.take(i as int)),
            decreases self.labels@.len() - i,
        {
            assert(self.labels@.take(i + 1).drop_last() =~= self.labels@.take(i as int));
            v = v.operate(&self.labels[i].variance());
            i = i + 1;
        }
        assert(self.labels@.take(i as int) =~= self.labels@);
        v
    }
}

impl PartialEq for DerivedTypeVar {
    fn eq(&self, other: &DerivedTypeVar) -> (r: bool) {
        self.var == other.var && labels_equal(&self.labels, &other.labels)
    }
}

impl vstd::std_specs::cmp::PartialEqSpecImpl for DerivedTypeVar {
    open spec fn obeys_eq_spec() -> bool {
        true
    }

    open spec fn eq_spec(&self, other: &DerivedTypeVar) -> bool {
        self@ == other@
    }
}

/// A subtyping constraint `lhs <= rhs`.
#[derive(Clone, Debug)]
pub struct SubtypeConstraint {
    pub lhs: DerivedTypeVar,
    pub rhs: DerivedTypeVar,
}

impl View for SubtypeConstraint {
    type V = (DerivedTypeVarView, DerivedTypeVarView);

    open spec fn view(&self) -> (DerivedTypeVarView, DerivedTypeVarView) {
        (self.lhs@, self.rhs@)
    }
}

impl SubtypeConstraint {
    /// The constraint `lhs <= rhs`.
    pub fn new(lhs: DerivedTypeVar, rhs: DerivedTypeVar) -> (r: SubtypeConstraint)
        ensures
            r@ == (lhs@, rhs@),
    {
        SubtypeConstraint { lhs, rhs }
    }

    /// A copy of this constraint.
    pub fn duplicate(&self) -> (r: SubtypeConstraint)
        ensures
            r@ == self@,
    {
        SubtypeConstraint { lhs: self.lhs.duplicate(), rhs: self.rhs.duplicate() }
    }
}

impl PartialEq for SubtypeConstraint {
    fn eq(&self, other: &SubtypeConstraint) -> (r: bool) {
        self.lhs == other.lhs && self.rhs == other.rhs
    }
}

impl vstd::std_specs::cmp::PartialEqSpecImpl for SubtypeConstraint {
    open spec fn obeys_eq_spec() -> bool {
        true
    }

    open spec fn eq_spec(&self, other: &SubtypeConstraint) -> bool {
        self@ == other@
    }
}

/// An addition constraint: `repr` is the type of `lhs + rhs`.
#[derive(Clone, Debug)]
pub struct AddConstraint {
    pub lhs: TypeVariable,
    pub rhs: TypeVariable,
    pub repr: TypeVariable,
}

/// A constraint of any kind.
#[derive(Clone, Debug)]
pub enum TyConstraint {
    SubTy(SubtypeConstraint),
    AddCons(AddConstraint),
}

/// The mathematical value of a constraint.
pub enum ConstraintView {
    Sub(DerivedTypeVarView, DerivedTypeVarView),
    Add(Seq<char>, Seq<char>, Seq<char>),
}

/// The value of a constraint.
pub open spec fn view_of(t: TyConstraint) -> ConstraintView {
    match t {
        TyConstraint::SubTy(c) => ConstraintView::Sub(c.lhs@, c.rhs@),
        TyConstraint::AddCons(a) => ConstraintView::Add(a.lhs@, a.rhs@, a.repr@),
    }
}

/// The values of a sequence of constraints.
pub open spec fn views_of(s: Seq<TyConstraint>) -> Seq<ConstraintView> {
    s.map_values(|t: TyConstraint| view_of(t))
}

/// The values of a sequence of constraints, each once, in order of first
/// occurrence.
pub open spec fn dedup_views(s: Seq<TyConstraint>) -> Seq<ConstraintView>
    decreases s.len(),
{
    if s.len() == 0 {
        Seq::empty()
    } else {
        let rest = dedup_views(s.drop_last());
        if rest.contains(view_of(s.last())) { rest } else { rest.push(view_of(s.last())) }
    }
}

/// Whether two constraints have the same value.
pub fn same_constraint(a: &TyConstraint, b: &TyConstraint) -> (r: bool)
    ensures
        r == (view_of(*a) == view_of(*b)),
{
    match (a, b) {
        (TyConstraint::SubTy(x), TyConstraint::SubTy(y)) => x.lhs == y.lhs && x.rhs == y.rhs,
        (TyConstraint::AddCons(x), TyConstraint::AddCons(y)) => x.lhs == y.lhs && x.rhs == y.rhs && x.repr == y.repr,
        _ => false,
    }
}

fn contains_constraint(v: &Vec<TyConstraint>, t: &TyConstraint) -> (r: bool)
    ensures
        r == views_of(v@).contains(view_of(*t)),
{
    let mut i: usize = 0;
    while i < v.len()
        invariant
            i <= v@.len(),
            forall|j: int| 0 <= j < i ==> view_of(v@[j]) != view_of(*t),
        decreases v@.len() - i,
    {
        if same_constraint(&v[i], t) {
            assert(views_of(v@)[i as int] == view_of(*t));
            return true;
        }
        i = i + 1;
    }
    assert(!views_of(v@).contains(view_of(*t)));
    false
}

/// The subtype constraints among a sequence of constraints, in order.
pub open spec fn subtys_of(s: Seq<TyConstraint>) -> Seq<(DerivedTypeVarView, DerivedTypeVarView)>
    decreases s.len(),
{
    if s.len() == 0 {
        Seq::empty()
    } else {
        let rest = subtys_of(s.drop_last());
        match s.last() {
            TyConstraint::SubTy(c) => if rest.contains(c@) {
                rest
            } else {
                rest.push(c@)
            },
            TyConstraint::AddCons(_) => rest,
        }
    }
}

/// A collection of constraints in the order they were added.
#[derive(Clone, Debug)]
pub struct ConstraintSet {
    pub constraints: Vec<TyConstraint>,
}

impl ConstraintSet {
    /// The empty set.
    pub fn empty() -> (r: ConstraintSet)
        ensures
            r.constraints@.len() == 0,
    {
        ConstraintSet { constraints: Vec::new() }
    }

    /// The same constraints, each once, in order of first occurrence.
    pub fn deduplicated(self) -> (r: ConstraintSet)
        ensures
            views_of(r.constraints@) == dedup_views(self.constraints@),
    {
        let ghost s0 = self.constraints@;
        let mut src = self.constraints;
        let mut rev = reversed(src);
        assert(rev@.reverse() =~= s0);
        let mut out: Vec<TyConstraint> = Vec::new();
        let ghost n = s0.len();
        assert(s0.take(0) =~= Seq::<TyConstraint>::empty());
        assert(views_of(out@) =~= dedup_views(s0.take(0)));
        while rev.len() > 0
            invariant
                n == s0.len(),
                rev@.len() <= n,
                rev@.reverse() == s0.subrange(n - rev@.len(), n as int),
                views_of(out@) == dedup_views(s0.take(n - rev@.len())),
            decreases rev@.len(),
        {
            let ghost before = rev@;
            let ghost k: int = n - rev@.len();
            let c = rev.pop().unwrap();
            proof {
                assert(before =~= rev@.push(c));
                assert(before.reverse() =~= seq![c] + rev@.reverse());
                assert(s0.subrange(k, n as int)[0] == s0[k]);
                assert((seq![c] + rev@.reverse())[0] == c);
                assert(s0.subrange(k, n as int) =~= seq![c] + s0.subrange(k + 1, n as int));
                assert((seq![c] + rev@.reverse()).drop_first() =~= rev@.reverse());
                assert((seq![c] + s0.subrange(k + 1, n as int)).drop_first() =~= s0.subrange(k + 1, n as int));
                assert(s0.take(k + 1).drop_last() =~= s0.take(k));
                assert(s0.take(k + 1).last() == c);
            }
            if !contains_constraint(&out, &c) {
                let ghost ov = views_of(out@);
                out.push(c);
                assert(views_of(out@) =~= ov.push(view_of(c)));
            }
        }
        assert(s0.take(n as int) =~= s0);
        ConstraintSet { constraints: out }
    }

    /// Adds a constraint at the end.
    pub fn insert(&mut self, c: TyConstraint)
        ensures
            final(self).constraints@ == old(self).constraints@.push(c),
    {
        self.constraints.push(c);
    }
}

/// The text of an integer: its decimal digits, after a minus sign when it is
/// negative.
pub open spec fn int_text(v: int) -> Seq<char> {
    if v < 0 { seq!['-'] + decimal((-v) as nat) } else { decimal(v as nat) }
}

/// The text of a label: `in_k`, `out_k`, `load`, `store`, or
/// `field<size>@<offset>`.
pub open spec fn label_text(l: FieldLabel) -> Seq<char> {
    match l {
        FieldLabel::In(k) => seq!['i', 'n', '_'] + decimal(k as nat),
        FieldLabel::Out(k) => seq!['o', 'u', 't', '_'] + decimal(k as nat),
        FieldLabel::Load => seq!['l', 'o', 'a', 'd'],
        FieldLabel::Store => seq!['s', 't', 'o', 'r', 'e'],
        FieldLabel::Field(f) => seq!['f', 'i', 'e', 'l', 'd'] + decimal(f.size as nat) + seq!['@'] + int_text(f.offset as int),
    }
}

/// The text of a path: each label after a dot.
pub open spec fn path_text(p: Seq<FieldLabel>) -> Seq<char>
    decreases p.len(),
{
    if p.len() == 0 { Seq::empty() } else { path_text(p.drop_last()) + seq!['.'] + label_text(p.last()) }
}

/// The text of a derived type variable: its base, then its path.
pub open spec fn dtv_text(d: DerivedTypeVarView) -> Seq<char> {
    d.base + path_text(d.path)
}

/// The text of a subtype constraint: `lhs <= rhs`.
pub open spec fn constraint_text(c: (DerivedTypeVarView, DerivedTypeVarView)) -> Seq<char> {
    dtv_text(c.0) + seq![' ', '<', '=', ' '] + dtv_text(c.1)
}

fn push_chars(out: &mut Vec<char>, s: &str)
    ensures
        final(out)@ == old(out)@ + s@,
{
    let n = s.unicode_len();
    let mut i: usize = 0;
    while i < n
        invariant
            n == s@.len(),
            i <= n,
            out@ == old(out)@ + s@.take(i as int),
        decreases n - i,
    {
        out.push(s.get_char(i));
        assert(out@ =~= old(out)@ + s@.take(i + 1));
        i = i + 1;
    }
    assert(s@.take(i as int) =~= s@);
}

fn push_label(out: &mut Vec<char>, l: FieldLabel)
    ensures
        final(out)@ == old(out)@ + label_text(l),
{
    let ghost o = out@;
    match l {
        FieldLabel::In(k) => {
            out.push('i'); out.push('n'); out.push('_');
            decimal_chars(k as u128, out);
        },
        FieldLabel::Out(k) => {
            out.push('o'); out.push('u'); out.push('t'); out.push('_');
            decimal_chars(k as u128, out);
        },
        FieldLabel::Load => {
            out.push('l'); out.push('o'); out.push('a'); out.push('d');
        },
        FieldLabel::Store => {
            out.push('s'); out.push('t'); out.push('o'); out.push('r'); out.push('e');
        },
        FieldLabel::Field(f) => {
            out.push('f'); out.push('i'); out.push('e'); out.push('l'); out.push('d');
            decimal_chars(f.size as u128, out);
            out.push('@');
            if f.offset < 0 {
                out.push('-');
                decimal_chars((0i128 - f.offset as i128) as u128, out);
            } else {
                decimal_chars(f.offset as u128, out);
            }
        },
    }
    assert(out@ =~= o + label_text(l));
}

impl DerivedTypeVar {
    /// The text of this derived type variable: its base, then each label
    /// after a dot.
    pub fn to_text(&self) -> (r: String)
        ensures
            r@ == dtv_text(self@),
    {
        let mut out: Vec<char> = Vec::new();
        push_chars(&mut out, self.var.name.as_str());
        let mut i: usize = 0;
        while i < self.labels.len()
            invariant
                i <= self.labels@.len(),
                out@ == self.var@ + path_text(self.labels@.take(i as int)),
            decreases self.labels@.len() - i,
        {
            assert(self.labels@.take(i + 1).drop_last() =~= self.labels@.take(i as int));
            out.push('.');
            push_label(&mut out, self.labels[i]);
            assert(out@ =~= self.var@ + path_text(self.labels@.take(i + 1)));
            i = i + 1;
        }
        assert(self.labels@.take(i as int) =~= self.labels@);
        string_of(&out)
    }
}

impl SubtypeConstraint {
    /// The text of this constraint, `lhs <= rhs`: the canonical rendering.
    pub fn to_text(&self) -> (r: String)
        ensures
            r@ == constraint_text(self@),
    {
        let mut out: Vec<char> = Vec::new();
        push_chars(&mut out, self.lhs.to_text().as_str());
        push_chars(&mut out, " <= ");
        push_chars(&mut out, self.rhs.to_text().as_str());
        proof { reveal_strlit(" <= "); }
        assert(out@ =~= constraint_text(self@));
        string_of(&out)
    }
}

} // verus!
