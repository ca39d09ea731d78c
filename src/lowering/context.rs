//! The state of a lowering: the types made so far and how to make more.
use vstd::prelude::*;
use crate::util::reversed;
use crate::constraints::FieldLabel;
use crate::lowering::{CType, Field, LoweringError, Parameter, TypeId, is_primitive_named, non_overlapping};
use crate::lowering::schedule::{covered, placed, schedule_fields, sched_spec, sort_spec, structures_of};
use crate::sketch::{LatticeBounds, NodeIndex, SketchEdge, SketchGraph};

verus! {

/// Which outgoing edges a target collection follows.
#[derive(Clone, Copy, Debug, PartialEq, Eq, Structural)]
pub enum TargetKind {
    /// Edges labelled with a field.
    Fields,
    /// Edges labelled `Load` or `Store`.
    Pointers,
}

/// Whether an edge with label `l` is followed for `kind`.
pub open spec fn selects(kind: TargetKind, l: FieldLabel) -> bool {
    match kind {
        TargetKind::Fields => l is Field,
        TargetKind::Pointers => l is Load || l is Store,
    }
}

/// `t` is the target of an edge out of `nd` that `kind` follows.
pub open spec fn is_target(g: &SketchGraph, nd: usize, kind: TargetKind, t: usize) -> bool {
    exists|i: int|
        0 <= i < g.edges@.len() && (#[trigger] g.edges@[i]).src == nd && selects(kind, g.edges@[i].label)
            && g.edges@[i].dst == t
}

/// `nd` has an outgoing field edge at a non-zero offset.
pub open spec fn has_non_zero_field(g: &SketchGraph, nd: usize) -> bool {
    exists|i: int|
        0 <= i < g.edges@.len() && (#[trigger] g.edges@[i]).src == nd && match g.edges@[i].label {
            FieldLabel::Field(f) => f.offset != 0,
            _ => false,
        }
}

/// Strictly ascending values.
pub open spec fn strictly_ascending(s: Seq<usize>) -> bool {
    forall|i: int, j: int| 0 <= i < j < s.len() ==> (#[trigger] s[i]) < (#[trigger] s[j])
}

fn selects_label(kind: TargetKind, l: FieldLabel) -> (r: bool)
    ensures
        r == selects(kind, l),
{
    match kind {
        TargetKind::Fields => matches!(l, FieldLabel::Field(_)),
        TargetKind::Pointers => matches!(l, FieldLabel::Load) || matches!(l, FieldLabel::Store),
    }
}

/// Inserts `t` into a strictly ascending vector unless it is there already.
fn insert_sorted(v: &mut Vec<usize>, t: usize)
    requires
        strictly_ascending(old(v)@),
    ensures
        strictly_ascending(final(v)@),
        forall|x: usize| #[trigger] final(v)@.contains(x) <==> (old(v)@.contains(x) || x == t),
        final(v)@.len() <= old(v)@.len() + 1,
{
    let mut pos: usize = 0;
    while pos < v.len() && v[pos] < t
        invariant
            pos <= v@.len(),
            forall|j: int| 0 <= j < pos ==> (#[trigger] v@[j]) < t,
        decreases v@.len() - pos,
    {
        pos = pos + 1;
    }
    if pos < v.len() && v[pos] == t {
        return;
    }
    let ghost old_v = v@;
    v.insert(pos, t);
    assert forall|a: int, b: int| 0 <= a < b < v@.len() implies (#[trigger] v@[a]) < (#[trigger] v@[b]) by {
        if a < pos && b > pos {
            assert(v@[a] == old_v[a] && v@[b] == old_v[b - 1]);
        } else if a < pos && b == pos {
        } else if a < pos {
            assert(v@[a] == old_v[a] && v@[b] == old_v[b]);
        } else if a == pos {
            assert(v@[b] == old_v[b - 1]);
            assert(old_v[pos as int] > t);
            if b - 1 > pos {
                assert(old_v[pos as int] < old_v[b - 1]);
            }
        } else {
            assert(v@[a] == old_v[a - 1] && v@[b] == old_v[b - 1]);
        }
    }
    assert forall|x: usize| #[trigger] v@.contains(x) <==> (old_v.contains(x) || x == t) by {
        if v@.contains(x) {
            let j = choose|j: int| 0 <= j < v@.len() && v@[j] == x;
            if j < pos {
                assert(old_v[j] == x);
            } else if j > pos {
                assert(old_v[j - 1] == x);
            }
        }
        if old_v.contains(x) {
            let j = choose|j: int| 0 <= j < old_v.len() && old_v[j] == x;
            if j < pos {
                assert(v@[j] == x);
            } else {
                assert(v@[j + 1] == x);
            }
        }
        if x == t {
            assert(v@[pos as int] == x);
        }
    }
}

/// The targets of the edges out of `nd` that `kind` follows, ascending and
/// without repetition.
pub fn sorted_targets(g: &SketchGraph, nd: usize, kind: TargetKind) -> (r: Vec<usize>)
    ensures
        strictly_ascending(r@),
        forall|t: usize| #[trigger] r@.contains(t) <==> is_target(g, nd, kind, t),
        r@.len() <= g.edges@.len(),
{
    let mut v: Vec<usize> = Vec::new();
    let mut i: usize = 0;
    while i < g.edges.len()
        invariant
            i <= g.edges@.len(),
            v@.len() <= i,
            strictly_ascending(v@),
            forall|t: usize| #[trigger] v@.contains(t) <==> exists|k: int|
                0 <= k < i && (#[trigger] g.edges@[k]).src == nd && selects(kind, g.edges@[k].label)
                    && g.edges@[k].dst == t,
        decreases g.edges@.len() - i,
    {
        let e = g.edges[i];
        if e.src == nd && selects_label(kind, e.label) {
            insert_sorted(&mut v, e.dst);
        }
        i = i + 1;
    }
    v
}

/// Whether `nd` has an outgoing field edge at a non-zero offset.
pub fn has_non_zero_fields(g: &SketchGraph, nd: usize) -> (r: bool)
    ensures
        r == has_non_zero_field(g, nd),
{
    let mut i: usize = 0;
    while i < g.edges.len()
        invariant
            i <= g.edges@.len(),
            forall|k: int|
                0 <= k < i && (#[trigger] g.edges@[k]).src == nd ==> match g.edges@[k].label {
                    FieldLabel::Field(f) => f.offset == 0,
                    _ => true,
                },
        decreases g.edges@.len() - i,
    {
        let e = g.edges[i];
        if e.src == nd {
            if let FieldLabel::Field(f) = e.label {
                if f.offset != 0 {
                    return true;
                }
            }
        }
        i = i + 1;
    }
    false
}

} // verus!
verus! {

/// The node that `name` is mapped to, by its first entry.
pub open spec fn node_of(tids: Seq<(String, NodeIndex)>, name: Seq<char>) -> Option<usize>
    decreases tids.len(),
{
    if tids.len() == 0 {
        None
    } else if tids[0].0@ == name {
        Some(tids[0].1.0)
    } else {
        node_of(tids.drop_first(), name)
    }
}

/// The out-parameter locations of the entries whose name is mapped to a node,
/// keyed by that node, in the order of `outs`.
pub open spec fn joined_out_params(
    tids: Seq<(String, NodeIndex)>,
    outs: Seq<(String, Vec<usize>)>,
) -> Seq<(usize, Seq<usize>)>
    decreases outs.len(),
{
    if outs.len() == 0 {
        Seq::empty()
    } else {
        let rest = joined_out_params(tids, outs.drop_last());
        match node_of(tids, outs.last().0@) {
            Some(nd) => rest.push((nd, outs.last().1@)),
            None => rest,
        }
    }
}

/// The bit sizes of the formal out-locations recorded for `nd`, by its first
/// entry; none if it has no entry.
pub open spec fn out_locs_of(outs: Seq<(usize, Seq<usize>)>, nd: usize) -> Seq<usize>
    decreases outs.len(),
{
    if outs.len() == 0 {
        Seq::empty()
    } else if outs[0].0 == nd {
        outs[0].1
    } else {
        out_locs_of(outs.drop_first(), nd)
    }
}

/// The first type id handed out for a graph: one past its largest node index.
pub open spec fn first_type_id(g: &SketchGraph) -> usize {
    if g.nodes@.len() == 0 {
        1
    } else {
        g.nodes@.len() as usize
    }
}

fn lookup_node(tids: &Vec<(String, NodeIndex)>, name: &String) -> (r: Option<usize>)
    ensures
        r == node_of(tids@, name@),
{
    let mut i: usize = 0;
    assert(tids@.subrange(0, tids@.len() as int) =~= tids@);
    while i < tids.len()
        invariant
            i <= tids@.len(),
            node_of(tids@, name@) == node_of(tids@.subrange(i as int, tids@.len() as int), name@),
        decreases tids@.len() - i,
    {
        assert(tids@.subrange(i as int, tids@.len() as int).drop_first() =~= tids@.subrange(
            i + 1,
            tids@.len() as int,
        ));
        if tids[i].0 == *name {
            return Some(tids[i].1.0);
        }
        i = i + 1;
    }
    None
}

/// The context of a lowering: the graph, the formal out-locations of
/// subprocedure nodes, a default primitive for unknown types, and the types
/// made so far, numbered from `first_id` on.
pub struct LoweringContext<'a> {
    grph: &'a SketchGraph,
    out_params: Vec<(usize, Vec<usize>)>,
    default_lattice_elem: LatticeBounds,
    ephemeral_types: Vec<CType>,
    cached_primitivies: Vec<(String, TypeId)>,
    first_id: usize,
    curr_id: usize,
}

impl<'a> LoweringContext<'a> {
    /// The graph being lowered.
    pub closed spec fn graph(&self) -> &'a SketchGraph {
        self.grph
    }

    /// The out-parameter locations, by node.
    pub closed spec fn out_params_view(&self) -> Seq<(usize, Seq<usize>)> {
        self.out_params@.map_values(|p: (usize, Vec<usize>)| (p.0, p.1@))
    }

    /// The id of the first type made.
    pub closed spec fn first(&self) -> usize {
        self.first_id
    }

    /// The id the next type will get.
    pub closed spec fn next_id(&self) -> usize {
        self.curr_id
    }

    /// The types made so far, in order of their ids.
    pub closed spec fn types(&self) -> Seq<CType> {
        self.ephemeral_types@
    }

    /// The default bounds, used for return fields with no type of their own.
    pub closed spec fn default_upper(&self) -> Seq<char> {
        self.default_lattice_elem.upper@
    }

    /// `id` names a type made so far.
    pub open spec fn holds(&self, id: TypeId) -> bool {
        self.first() <= id.0 < self.next_id()
    }

    /// The type with id `id`.
    pub open spec fn ty(&self, id: TypeId) -> CType {
        self.types()[id.0 - self.first()]
    }

    pub closed spec fn wf(&self) -> bool {
        &&& self.grph.wf()
        &&& self.curr_id == self.first_id + self.ephemeral_types@.len()
        &&& forall|k: int|
            0 <= k < self.cached_primitivies@.len() ==> self.holds(
                (#[trigger] self.cached_primitivies@[k]).1,
            ) && is_primitive_named(self.ty(self.cached_primitivies@[k].1), self.cached_primitivies@[k].0@)
    }

    /// `self` came from `prev` by making more types.
    pub open spec fn grows_from(&self, prev: &Self) -> bool {
        &&& self.graph() == prev.graph()
        &&& self.out_params_view() == prev.out_params_view()
        &&& self.default_upper() == prev.default_upper()
        &&& self.first() == prev.first()
        &&& prev.types().is_prefix_of(self.types())
        &&& prev.next_id() <= self.next_id()
    }

    /// A context for lowering `grph`. `out_param_mapping` gives, by the name
    /// of a subprocedure, the bit sizes of its formal out-locations, and
    /// `tid_to_node_index` the node of each such name; entries whose name has
    /// no node are left out. Type ids start one past the largest node index.
    pub fn new(
        grph: &'a SketchGraph,
        tid_to_node_index: &Vec<(String, NodeIndex)>,
        out_param_mapping: &Vec<(String, Vec<usize>)>,
        default_lattice_elem: LatticeBounds,
    ) -> (r: LoweringContext<'a>)
        requires
            grph.wf(),
        ensures
            r.wf(),
            r.graph() == grph,
            r.out_params_view() == joined_out_params(tid_to_node_index@, out_param_mapping@),
            r.default_upper() == default_lattice_elem.upper@,
            r.first() == first_type_id(grph),
            r.next_id() == first_type_id(grph),
            r.types().len() == 0,
    {
        let mut out_params: Vec<(usize, Vec<usize>)> = Vec::new();
        let mut i: usize = 0;
        while i < out_param_mapping.len()
            invariant
                i <= out_param_mapping@.len(),
                out_params@.map_values(|p: (usize, Vec<usize>)| (p.0, p.1@)) == joined_out_params(
                    tid_to_node_index@,
                    out_param_mapping@.take(i as int),
                ),
            decreases out_param_mapping@.len() - i,
        {
            assert(out_param_mapping@.take(i + 1).drop_last() =~= out_param_mapping@.take(i as int));
            let ghost before = out_params@;
            match lookup_node(tid_to_node_index, &out_param_mapping[i].0) {
                Some(nd) => {
                    out_params.push((nd, out_param_mapping[i].1.clone()));
                    assert(out_params@.map_values(|p: (usize, Vec<usize>)| (p.0, p.1@))
                        =~= before.map_values(|p: (usize, Vec<usize>)| (p.0, p.1@)).push(
                        (nd, out_param_mapping@[i as int].1@),
                    ));
                },
                None => {},
            }
            i = i + 1;
        }
        assert(out_param_mapping@.take(i as int) =~= out_param_mapping@);
        let first: usize = if grph.nodes.len() == 0 {
            1
        } else {
            grph.nodes.len()
        };
        LoweringContext {
            grph,
            out_params,
            default_lattice_elem,
            ephemeral_types: Vec::new(),
            cached_primitivies: Vec::new(),
            first_id: first,
            curr_id: first,
        }
    }

    /// Types made earlier keep their ids as the context grows.
    pub proof fn lemma_grows_keeps(&self, prev: &Self, id: TypeId)
        requires
            self.grows_from(prev),
            prev.holds(id),
            prev.wf(),
            self.wf(),
        ensures
            self.holds(id),
            self.ty(id) == prev.ty(id),
    {
        assert(self.types()[id.0 - self.first()] == prev.types()[id.0 - prev.first()]);
    }

    fn add_type(&mut self, ty: CType) -> (r: TypeId)
        requires
            old(self).wf(),
            old(self).next_id() < usize::MAX,
        ensures
            final(self).wf(),
            final(self).grows_from(old(self)),
            r.0 == old(self).next_id(),
            final(self).next_id() == old(self).next_id() + 1,
            final(self).types() == old(self).types().push(ty),
            final(self).cached_primitivies@ == old(self).cached_primitivies@,
    {
        let id = self.curr_id;
        self.curr_id = self.curr_id + 1;
        let ghost before = self.ephemeral_types@;
        self.ephemeral_types.push(ty);
        assert(before.is_prefix_of(self.ephemeral_types@));
        assert forall|k: int| 0 <= k < self.cached_primitivies@.len() implies self.holds(
            (#[trigger] self.cached_primitivies@[k]).1,
        ) && is_primitive_named(self.ty(self.cached_primitivies@[k].1), self.cached_primitivies@[k].0@) by {
            let c = self.cached_primitivies@[k].1;
            assert(self.ephemeral_types@[c.0 - self.first_id] == before[c.0 - self.first_id]);
        }
        TypeId(id)
    }

    /// The primitive type named after the upper bound of `nd_bounds`, made
    /// once per name.
    fn build_terminal_type(&mut self, nd_bounds: &LatticeBounds) -> (r: TypeId)
        requires
            old(self).wf(),
            old(self).next_id() < usize::MAX,
        ensures
            final(self).wf(),
            final(self).grows_from(old(self)),
            final(self).next_id() <= old(self).next_id() + 1,
            final(self).holds(r),
            is_primitive_named(final(self).ty(r), nd_bounds.upper@),
            (exists|k: int| 0 <= k < old(self).cached_primitivies@.len() && (#[trigger] old(self).cached_primitivies@[k]).0@ == nd_bounds.upper@)
                ==> final(self).next_id() == old(self).next_id(),
            forall|k: int| 0 <= k < old(self).cached_primitivies@.len() && (#[trigger] old(self).cached_primitivies@[k]).0@ == nd_bounds.upper@
                && (forall|j: int| 0 <= j < k ==> (#[trigger] old(self).cached_primitivies@[j]).0@ != nd_bounds.upper@)
                ==> r == old(self).cached_primitivies@[k].1 && *final(self) == *old(self),
            (forall|k: int| 0 <= k < old(self).cached_primitivies@.len() ==> (#[trigger] old(self).cached_primitivies@[k]).0@ != nd_bounds.upper@)
                ==> final(self).cached_primitivies@.len() == old(self).cached_primitivies@.len() + 1
                && final(self).cached_primitivies@.drop_last() == old(self).cached_primitivies@
                && final(self).cached_primitivies@.last().0@ == nd_bounds.upper@
                && final(self).cached_primitivies@.last().1 == r
                && final(self).next_id() == old(self).next_id() + 1,
    {
        let nm = nd_bounds.get_upper();
        let mut i: usize = 0;
        while i < self.cached_primitivies.len()
            invariant
                self.wf(),
                *self == *old(self),
                nm@ == nd_bounds.upper@,
                i <= self.cached_primitivies@.len(),
                forall|k: int| 0 <= k < i ==> (#[trigger] self.cached_primitivies@[k]).0@ != nm@,
            decreases self.cached_primitivies@.len() - i,
        {
            if self.cached_primitivies[i].0 == *nm {
                let id = self.cached_primitivies[i].1;
                assert(self.cached_primitivies@[i as int].0@ == nm@);
                assert(is_primitive_named(
                    self.ty(self.cached_primitivies@[i as int].1),
                    self.cached_primitivies@[i as int].0@,
                ));
                assert(id == self.cached_primitivies@[i as int].1);
                assert(self.types().is_prefix_of(self.types()));
                proof {
                    assert forall|k: int| 0 <= k < old(self).cached_primitivies@.len() && (#[trigger] old(self).cached_primitivies@[k]).0@ == nd_bounds.upper@
                        && (forall|j: int| 0 <= j < k ==> (#[trigger] old(self).cached_primitivies@[j]).0@ != nd_bounds.upper@)
                        implies id == old(self).cached_primitivies@[k].1 by {
                        if k < i {
                        } else if k > i {
                            assert(old(self).cached_primitivies@[i as int].0@ == nd_bounds.upper@);
                        }
                    }
                }
                return id;
            }
            i = i + 1;
        }
        let res = self.add_type(CType::Primitive(nm.clone()));
        let ghost before_push = self.cached_primitivies@;
        self.cached_primitivies.push((nm.clone(), res));
        proof {
            assert(self.cached_primitivies@.drop_last() =~= before_push);
            let n = self.cached_primitivies@.len() - 1;
            assert(self.cached_primitivies@[n].1 == res);
            assert forall|k: int| 0 <= k < self.cached_primitivies@.len() implies self.holds(
                (#[trigger] self.cached_primitivies@[k]).1,
            ) && is_primitive_named(self.ty(self.cached_primitivies@[k].1), self.cached_primitivies@[k].0@) by {
                if k < n {
                    assert(self.cached_primitivies@[k] == old(self).cached_primitivies@[k]);
                }
            }
        }
        res
    }
}

/// `f` is a field read off an edge out of `nd` labelled with a field at the
/// same offset and size, and its type is an alias of that edge's target.
pub open spec fn field_of_edge(ctx: &LoweringContext, nd: usize, f: Field) -> bool {
    &&& ctx.holds(f.type_index)
    &&& exists|i: int|
        0 <= i < ctx.graph().edges@.len() && (#[trigger] ctx.graph().edges@[i]).src == nd
            && match ctx.graph().edges@[i].label {
            FieldLabel::Field(c) => c.offset as int == f.byte_offset as int && c.size == f.bit_sz,
            _ => false,
        } && ctx.ty(f.type_index) == CType::Alias(NodeIndex(ctx.graph().edges@[i].dst))
}

/// The field at the same offset and size, of type `idx`, where the offset is
/// not negative.
pub fn translate_field(field: &crate::constraints::Field, idx: TypeId) -> (r: Option<Field>)
    ensures
        0 <= field.offset <= usize::MAX ==> r == Some(
            Field { byte_offset: field.offset as usize, bit_sz: field.size, type_index: idx },
        ),
        !(0 <= field.offset <= usize::MAX) ==> r.is_none(),
{
    if field.offset >= 0 && field.offset as u64 <= usize::MAX as u64 {
        Some(Field { byte_offset: field.offset as usize, bit_sz: field.size, type_index: idx })
    } else {
        None
    }
}

/// Edge `e` is a field edge out of `nd` whose offset fits in a `usize` and
/// is not negative.
pub open spec fn kept_field_edge(g: &SketchGraph, nd: usize, e: int) -> bool {
    0 <= e < g.edges@.len() && g.edges@[e].src == nd && match g.edges@[e].label {
        FieldLabel::Field(c) => 0 <= c.offset <= usize::MAX,
        _ => false,
    }
}

/// `f` is the field read off edge `e`: same offset and size, typed by an
/// alias of the edge's target.
pub open spec fn edge_field(ctx: &LoweringContext, e: int, f: Field) -> bool {
    &&& match ctx.graph().edges@[e].label {
        FieldLabel::Field(c) => c.offset as int == f.byte_offset as int && c.size == f.bit_sz,
        _ => false,
    }
    &&& ctx.holds(f.type_index)
    &&& ctx.ty(f.type_index) == CType::Alias(NodeIndex(ctx.graph().edges@[e].dst))
}

/// The fields of each structure of a candidate list (none for other types).
pub open spec fn structs_of(r: Seq<CType>) -> Seq<Seq<Field>> {
    r.map_values(|c: CType| match c {
        CType::Structure(fs) => fs@,
        _ => Seq::empty(),
    })
}

/// The number of field edges out of `nd` among `es`.
pub open spec fn count_field_edges(es: Seq<SketchEdge>, nd: usize) -> nat
    decreases es.len(),
{
    if es.len() == 0 {
        0
    } else {
        count_field_edges(es.drop_last(), nd) + if es.last().src == nd && es.last().label is Field { 1nat } else { 0nat }
    }
}

/// The fields read off the field edges out of `nd` among `es`, in edge
/// order: the `j`-th field edge gets type id `first + j`, and an edge whose
/// offset is negative or past `usize` gives no field.
pub open spec fn edge_fields(es: Seq<SketchEdge>, nd: usize, first: int) -> Seq<Field>
    decreases es.len(),
{
    if es.len() == 0 {
        Seq::empty()
    } else {
        let rest = edge_fields(es.drop_last(), nd, first);
        let e = es.last();
        if e.src == nd && e.label is Field {
            let c = e.label->Field_0;
            if 0 <= c.offset <= usize::MAX {
                rest.push(Field {
                    byte_offset: c.offset as usize,
                    bit_sz: c.size,
                    type_index: TypeId((first + count_field_edges(es.drop_last(), nd)) as usize),
                })
            } else {
                rest
            }
        } else {
            rest
        }
    }
}

/// What `build_structure_types` promises of its result `r` for `nd`.
pub open spec fn struct_cands(ctx: &LoweringContext, nd: usize, r: Seq<CType>) -> bool {
    &&& !has_non_zero_field(ctx.graph(), nd) ==> r.len() == 0
    &&& forall|i: int| 0 <= i < r.len() ==> match #[trigger] r[i] {
        CType::Structure(fs) => fs@.len() > 0 && non_overlapping(fs@) && forall|k: int|
            0 <= k < fs@.len() ==> field_of_edge(ctx, nd, #[trigger] fs@[k]),
        _ => false,
    }
    &&& has_non_zero_field(ctx.graph(), nd) ==> forall|e: int| #[trigger] kept_field_edge(ctx.graph(), nd, e)
        ==> exists|f: Field| #[trigger] edge_field(ctx, e, f) && (placed(structs_of(r), f) || covered(structs_of(r), f))
    &&& has_non_zero_field(ctx.graph(), nd) ==> exists|base: int|
        structs_of(r) == sched_spec(sort_spec(#[trigger] edge_fields(ctx.graph().edges@, nd, base)))
}

proof fn lemma_edge_field_keeps(prev: &LoweringContext, cur: &LoweringContext, e: int, f: Field)
    requires
        prev.wf(),
        cur.wf(),
        cur.grows_from(prev),
        edge_field(prev, e, f),
    ensures
        edge_field(cur, e, f),
{
    cur.lemma_grows_keeps(prev, f.type_index);
}

proof fn lemma_field_of_edge_keeps(prev: &LoweringContext, cur: &LoweringContext, nd: usize, f: Field)
    requires
        prev.wf(),
        cur.wf(),
        cur.grows_from(prev),
        field_of_edge(prev, nd, f),
    ensures
        field_of_edge(cur, nd, f),
{
    cur.lemma_grows_keeps(prev, f.type_index);
}

proof fn lemma_struct_cands_keeps(prev: &LoweringContext, cur: &LoweringContext, nd: usize, r: Seq<CType>)
    requires
        prev.wf(),
        cur.wf(),
        cur.grows_from(prev),
        struct_cands(prev, nd, r),
    ensures
        struct_cands(cur, nd, r),
{
    assert forall|i: int| 0 <= i < r.len() implies match #[trigger] r[i] {
        CType::Structure(fs) => fs@.len() > 0 && non_overlapping(fs@) && forall|k: int|
            0 <= k < fs@.len() ==> field_of_edge(cur, nd, #[trigger] fs@[k]),
        _ => false,
    } by {
        if let CType::Structure(fs) = r[i] {
            assert forall|k: int| 0 <= k < fs@.len() implies field_of_edge(cur, nd, #[trigger] fs@[k]) by {
                lemma_field_of_edge_keeps(prev, cur, nd, fs@[k]);
            }
        }
    }
    if has_non_zero_field(cur.graph(), nd) {
        assert forall|e: int| #[trigger] kept_field_edge(cur.graph(), nd, e)
            implies exists|f: Field| #[trigger] edge_field(cur, e, f) && (placed(structs_of(r), f) || covered(structs_of(r), f)) by {
            let f = choose|f: Field| #[trigger] edge_field(prev, e, f) && (placed(structs_of(r), f) || covered(structs_of(r), f));
            lemma_edge_field_keeps(prev, cur, e, f);
        }
    }
}

/// The node an alias stands for, or -1 for any other type.
pub open spec fn alias_target(c: CType) -> int {
    match c {
        CType::Alias(n) => n.0 as int,
        _ => -1,
    }
}

/// The node whose alias a pointer type points to, or -1.
pub open spec fn pointer_target(ctx: &LoweringContext, c: CType) -> int {
    match c {
        CType::Pointer { target } => if ctx.holds(target) {
            alias_target(ctx.ty(target))
        } else {
            -1
        },
        _ => -1,
    }
}

/// The alias candidates of `nd`: where none of its field edges has a
/// non-zero offset, one alias per distinct target of its field edges, in
/// ascending order of target; otherwise none.
pub fn build_alias_types(nd: usize, grph: &SketchGraph) -> (r: Vec<CType>)
    ensures
        has_non_zero_field(grph, nd) ==> r@.len() == 0,
        r@.len() <= grph.edges@.len(),
        forall|i: int| 0 <= i < r@.len() ==> is_target(grph, nd, TargetKind::Fields, #[trigger] alias_target(r@[i]) as usize) && alias_target(r@[i]) >= 0,
        !has_non_zero_field(grph, nd) ==> forall|t: usize| is_target(grph, nd, TargetKind::Fields, t) ==> exists|i: int| 0 <= i < r@.len() && #[trigger] r@[i] == CType::Alias(NodeIndex(t)),
        forall|i: int, j: int| 0 <= i < j < r@.len() ==> alias_target(#[trigger] r@[i]) < alias_target(#[trigger] r@[j]),
{
    let mut r: Vec<CType> = Vec::new();
    if has_non_zero_fields(grph, nd) {
        return r;
    }
    let ts = sorted_targets(grph, nd, TargetKind::Fields);
    let mut i: usize = 0;
    while i < ts.len()
        invariant
            i <= ts@.len(),
            r@.len() == i,
            forall|j: int| 0 <= j < i ==> #[trigger] r@[j] == CType::Alias(NodeIndex(ts@[j])),
        decreases ts@.len() - i,
    {
        r.push(CType::Alias(NodeIndex(ts[i])));
        i = i + 1;
    }
    assert forall|t: usize| is_target(grph, nd, TargetKind::Fields, t) implies exists|i: int| 0 <= i < r@.len() && #[trigger] r@[i] == CType::Alias(NodeIndex(t)) by {
        assert(ts@.contains(t));
        let j = choose|j: int| 0 <= j < ts@.len() && ts@[j] == t;
        assert(r@[j] == CType::Alias(NodeIndex(t)));
    }
    assert forall|i: int| 0 <= i < r@.len() implies is_target(grph, nd, TargetKind::Fields, #[trigger] alias_target(r@[i]) as usize) && alias_target(r@[i]) >= 0 by {
        assert(ts@.contains(ts@[i]));
    }
    r
}

impl<'a> LoweringContext<'a> {
    /// The pointer candidates of `nd`: one pointer per distinct target of its
    /// `Load` and `Store` edges, in ascending order of target, each to a new
    /// alias of that target.
    fn build_pointer_types(&mut self, nd: usize) -> (r: Vec<CType>)
        requires
            old(self).wf(),
            old(self).next_id() + old(self).graph().edges@.len() <= usize::MAX,
        ensures
            final(self).wf(),
            final(self).grows_from(old(self)),
            final(self).next_id() <= old(self).next_id() + old(self).graph().edges@.len(),
            r@.len() <= old(self).graph().edges@.len(),
            forall|i: int| 0 <= i < r@.len() ==> (#[trigger] r@[i]) is Pointer && pointer_target(final(self), r@[i]) >= 0 && is_target(final(self).graph(), nd, TargetKind::Pointers, pointer_target(final(self), r@[i]) as usize),
            forall|t: usize| #[trigger] is_target(final(self).graph(), nd, TargetKind::Pointers, t) ==> exists|i: int| 0 <= i < r@.len() && pointer_target(final(self), #[trigger] r@[i]) == t,
            forall|i: int, j: int| 0 <= i < j < r@.len() ==> pointer_target(final(self), #[trigger] r@[i]) < pointer_target(final(self), #[trigger] r@[j]),
    {
        let ts = sorted_targets(self.grph, nd, TargetKind::Pointers);
        let mut r: Vec<CType> = Vec::new();
        let mut i: usize = 0;
        while i < ts.len()
            invariant
                i <= ts@.len(),
                ts@.len() <= self.graph().edges@.len(),
                self.wf(),
                self.grows_from(old(self)),
                self.next_id() == old(self).next_id() + i,
                old(self).next_id() + old(self).graph().edges@.len() <= usize::MAX,
                r@.len() == i,
                forall|j: int| 0 <= j < i ==> (#[trigger] r@[j]) is Pointer && pointer_target(self, r@[j]) == ts@[j],
            decreases ts@.len() - i,
        {
            let ghost prev = *self;
            let id = self.add_type(CType::Alias(NodeIndex(ts[i])));
            r.push(CType::Pointer { target: id });
            proof {
                assert forall|j: int| 0 <= j < i + 1 implies (#[trigger] r@[j]) is Pointer && pointer_target(self, r@[j]) == ts@[j] by {
                    if j < i {
                        let tgt = r@[j]->Pointer_target;
                        self.lemma_grows_keeps(&prev, tgt);
                    } else {
                        assert(self.ty(id) == CType::Alias(NodeIndex(ts@[j])));
                    }
                }
            }
            i = i + 1;
        }
        proof {
            assert forall|t: usize| #[trigger] is_target(self.graph(), nd, TargetKind::Pointers, t) implies exists|i: int| 0 <= i < r@.len() && pointer_target(self, #[trigger] r@[i]) == t by {
                assert(ts@.contains(t));
                let j = choose|j: int| 0 <= j < ts@.len() && ts@[j] == t;
                assert(pointer_target(self, r@[j]) == t);
            }
            assert forall|i: int| 0 <= i < r@.len() implies (#[trigger] r@[i]) is Pointer && pointer_target(self, r@[i]) >= 0 && is_target(self.graph(), nd, TargetKind::Pointers, pointer_target(self, r@[i]) as usize) by {
                assert(ts@.contains(ts@[i]));
            }
        }
        r
    }

    /// The structure candidates of `nd`: where one of its field edges has a
    /// non-zero offset, the fields read off its field edges (each typed by a
    /// new alias of the edge's target; negative offsets left out), split by
    /// `schedule_fields` into structures; otherwise none.
    fn build_structure_types(&mut self, nd: usize) -> (r: Vec<CType>)
        requires
            old(self).wf(),
            old(self).next_id() + old(self).graph().edges@.len() <= usize::MAX,
        ensures
            final(self).wf(),
            final(self).grows_from(old(self)),
            final(self).next_id() <= old(self).next_id() + old(self).graph().edges@.len(),
            r@.len() <= old(self).graph().edges@.len(),
            struct_cands(final(self), nd, r@),
            !has_non_zero_field(old(self).graph(), nd) ==> *final(self) == *old(self),
            has_non_zero_field(old(self).graph(), nd) ==> structs_of(r@) == sched_spec(sort_spec(
                edge_fields(old(self).graph().edges@, nd, old(self).next_id() as int),
            )),
    {
        let ghost base: int = self.next_id() as int;
        if !has_non_zero_fields(self.grph, nd) {
            assert(self.types().is_prefix_of(self.types()));
            return Vec::new();
        }
        let mut flds: Vec<Field> = Vec::new();
        let mut i: usize = 0;
        while i < self.grph.edges.len()
            invariant
                i <= self.graph().edges@.len(),
                self.wf(),
                self.grows_from(old(self)),
                self.next_id() <= old(self).next_id() + i,
                old(self).next_id() + old(self).graph().edges@.len() <= usize::MAX,
                flds@.len() <= i,
                forall|k: int| 0 <= k < flds@.len() ==> field_of_edge(self, nd, #[trigger] flds@[k]),
                forall|e: int| 0 <= e < i && #[trigger] kept_field_edge(self.graph(), nd, e) ==> exists|j: int| 0 <= j < flds@.len() && edge_field(self, e, #[trigger] flds@[j]),
                flds@ == edge_fields(self.graph().edges@.take(i as int), nd, old(self).next_id() as int),
                self.next_id() == old(self).next_id() + count_field_edges(self.graph().edges@.take(i as int), nd),
            decreases self.graph().edges@.len() - i,
        {
            let e = self.grph.edges[i];
            proof {
                assert(self.graph().edges@.take(i + 1).drop_last() =~= self.graph().edges@.take(i as int));
                assert(self.graph().edges@.take(i + 1).last() == e);
            }
            if e.src == nd {
                if let FieldLabel::Field(c) = e.label {
                    let ghost prev = *self;
                    let id = self.add_type(CType::Alias(NodeIndex(e.dst)));
                    let tf = translate_field(&c, id);
                    proof {
                        assert forall|k: int| 0 <= k < flds@.len() implies field_of_edge(self, nd, #[trigger] flds@[k]) by {
                            self.lemma_grows_keeps(&prev, flds@[k].type_index);
                        }
                        assert forall|e2: int| 0 <= e2 < i && #[trigger] kept_field_edge(self.graph(), nd, e2) implies exists|j: int| 0 <= j < flds@.len() && edge_field(self, e2, #[trigger] flds@[j]) by {
                            let j = choose|j: int| 0 <= j < flds@.len() && edge_field(&prev, e2, #[trigger] flds@[j]);
                            lemma_edge_field_keeps(&prev, self, e2, flds@[j]);
                        }
                    }
                    let ghost fl0 = flds@;
                    if let Some(f) = tf {
                        flds.push(f);
                        proof {
                            assert(self.graph().edges@[i as int] == e);
                            assert(field_of_edge(self, nd, f));
                            assert(edge_field(self, i as int, f));
                            assert(flds@[fl0.len() as int] == f);
                            assert forall|e2: int| 0 <= e2 < i && #[trigger] kept_field_edge(self.graph(), nd, e2) implies exists|j: int| 0 <= j < flds@.len() && edge_field(self, e2, #[trigger] flds@[j]) by {
                                let j = choose|j: int| 0 <= j < fl0.len() && edge_field(self, e2, #[trigger] fl0[j]);
                                assert(flds@[j] == fl0[j]);
                            }
                        }
                    }
                }
            }
            i = i + 1;
        }
        assert forall|e2: int| #[trigger] kept_field_edge(self.graph(), nd, e2) implies exists|j: int| 0 <= j < flds@.len() && edge_field(self, e2, #[trigger] flds@[j]) by {
            assert(0 <= e2 < i);
        }
        assert(self.graph().edges@.take(i as int) =~= self.graph().edges@);
        let rooms = schedule_fields(&flds);
        let mut r: Vec<CType> = Vec::new();
        let mut q: usize = 0;
        while q < rooms.len()
            invariant
                q <= rooms@.len(),
                r@.len() == q,
                forall|j: int| 0 <= j < q ==> match #[trigger] r@[j] {
                    CType::Structure(fs) => fs@ == rooms@[j]@,
                    _ => false,
                },
            decreases rooms@.len() - q,
        {
            r.push(CType::Structure(rooms[q].clone()));
            q = q + 1;
        }
        proof {
            assert forall|i: int| 0 <= i < r@.len() implies match #[trigger] r@[i] {
                CType::Structure(fs) => fs@.len() > 0 && non_overlapping(fs@) && forall|k: int|
                    0 <= k < fs@.len() ==> field_of_edge(self, nd, #[trigger] fs@[k]),
                _ => false,
            } by {
                let fs = r@[i]->Structure_0;
                assert(non_overlapping(rooms@[i]@));
                assert forall|k: int| 0 <= k < fs@.len() implies field_of_edge(self, nd, #[trigger] fs@[k]) by {
                    assert(structures_of(rooms@)[i] == fs@);
                    assert(structures_of(rooms@)[i][k] == fs@[k]);
                    assert(placed(structures_of(rooms@), fs@[k]));
                    assert(flds@.contains(fs@[k]));
                }
            }
            assert(structs_of(r@) =~= structures_of(rooms@));
            assert forall|e2: int| #[trigger] kept_field_edge(self.graph(), nd, e2)
                implies exists|f: Field| #[trigger] edge_field(self, e2, f) && (placed(structs_of(r@), f) || covered(structs_of(r@), f)) by {
                let j = choose|j: int| 0 <= j < flds@.len() && edge_field(self, e2, #[trigger] flds@[j]);
                assert(flds@.contains(flds@[j]));
            }
        }
        r
    }

    /// The parameters of `nd`: for each index `k` of its `In(k)` edges (its
    /// `Out(k)` edges where `want_out`), ascending, a parameter typed by a new
    /// alias of the edge's target, or by a new union of such aliases where
    /// several edges carry the index.
    fn collect_params(&mut self, nd: usize, want_out: bool) -> (r: Vec<Parameter>)
        requires
            old(self).wf(),
            old(self).next_id() + 2 * old(self).graph().edges@.len() <= usize::MAX,
        ensures
            final(self).wf(),
            final(self).grows_from(old(self)),
            final(self).next_id() <= old(self).next_id() + 2 * old(self).graph().edges@.len(),
            r@.len() <= old(self).graph().edges@.len(),
            forall|i: int, j: int| 0 <= i < j < r@.len() ==> (#[trigger] r@[i]).index < (#[trigger] r@[j]).index,
            forall|k: usize| #[trigger] has_param_edge(final(self).graph(), nd, want_out, k) <==> exists|i: int| 0 <= i < r@.len() && (#[trigger] r@[i]).index == k,
            forall|i: int| 0 <= i < r@.len() ==> param_typed(final(self), nd, want_out, #[trigger] r@[i]),
            forall|i: int| 0 <= i < r@.len() ==> param_exact(final(self), nd, want_out, #[trigger] r@[i]),
    {
        let mut pairs: Vec<(usize, TypeId)> = Vec::new();
        let mut idxs: Vec<usize> = Vec::new();
        let mut i: usize = 0;
        while i < self.grph.edges.len()
            invariant
                i <= self.graph().edges@.len(),
                self.wf(),
                self.grows_from(old(self)),
                self.next_id() <= old(self).next_id() + i,
                old(self).next_id() + 2 * old(self).graph().edges@.len() <= usize::MAX,
                idxs@.len() <= i,
                strictly_ascending(idxs@),
                forall|j: int| 0 <= j < pairs@.len() ==> alias_of_param_edge(self, nd, want_out, (#[trigger] pairs@[j]).0, pairs@[j].1),
                forall|k: usize| #[trigger] idxs@.contains(k) <==> exists|j: int| 0 <= j < pairs@.len() && (#[trigger] pairs@[j]).0 == k,
                forall|k: usize| #[trigger] idxs@.contains(k) <==> exists|e: int| 0 <= e < i && (#[trigger] self.graph().edges@[e]).src == nd && param_label_index(self.graph().edges@[e].label, want_out) == Some(k),
                forall|k: usize| aliases_match(self, #[trigger] pair_ids(pairs@, k), param_targets(self.graph().edges@.take(i as int), nd, want_out, k)),
                forall|k: usize, m: int| 0 <= m < pair_ids(pairs@, k).len() ==> (#[trigger] pair_ids(pairs@, k)[m]).0 < self.next_id(),
            decreases self.graph().edges@.len() - i,
        {
            let e = self.grph.edges[i];
            let ghost pairs0 = pairs@;
            let ghost self0 = *self;
            proof {
                assert(self.graph().edges@.take(i + 1).drop_last() =~= self.graph().edges@.take(i as int));
                assert(self.graph().edges@.take(i + 1).last() == e);
            }
            let pk = param_index_of(e.label, want_out);
            if e.src == nd && pk.is_some() {
                let k = pk.unwrap();
                let ghost prev = *self;
                let id = self.add_type(CType::Alias(NodeIndex(e.dst)));
                let ghost old_pairs = pairs@;
                pairs.push((k, id));
                insert_sorted(&mut idxs, k);
                proof {
                    assert(self.graph().edges@[i as int] == e);
                    assert forall|j: int| 0 <= j < pairs@.len() implies alias_of_param_edge(self, nd, want_out, (#[trigger] pairs@[j]).0, pairs@[j].1) by {
                        if j < old_pairs.len() {
                            assert(pairs@[j] == old_pairs[j]);
                            self.lemma_grows_keeps(&prev, pairs@[j].1);
                        } else {
                            assert(self.ty(id) == CType::Alias(NodeIndex(e.dst)));
                        }
                    }
                    assert(pairs@.drop_last() =~= old_pairs);
                    assert forall|kk: usize| aliases_match(self, #[trigger] pair_ids(pairs@, kk), param_targets(self.graph().edges@.take(i + 1), nd, want_out, kk)) by {
                        lemma_aliases_match_keeps(&prev, self, pair_ids(old_pairs, kk), param_targets(self.graph().edges@.take(i as int), nd, want_out, kk));
                        if kk == k {
                            assert(pair_ids(pairs@, kk) =~= pair_ids(old_pairs, kk).push(id));
                            let ids2 = pair_ids(pairs@, kk);
                            assert forall|a: int, b: int| 0 <= a < b < ids2.len() implies (#[trigger] ids2[a]).0 < (#[trigger] ids2[b]).0 by {
                                if b == ids2.len() - 1 {
                                    assert(ids2[a] == pair_ids(old_pairs, kk)[a]);
                                }
                            }
                        }
                    }
                    assert forall|kk: usize, m: int| 0 <= m < pair_ids(pairs@, kk).len() implies (#[trigger] pair_ids(pairs@, kk)[m]).0 < self.next_id() by {
                        if kk == k && m == pair_ids(pairs@, kk).len() - 1 {
                        } else {
                            assert(pair_ids(pairs@, kk)[m] == pair_ids(old_pairs, kk)[m]);
                        }
                    }
                    assert forall|kk: usize| #[trigger] idxs@.contains(kk) <==> exists|j: int| 0 <= j < pairs@.len() && (#[trigger] pairs@[j]).0 == kk by {
                        if exists|j: int| 0 <= j < old_pairs.len() && (#[trigger] old_pairs[j]).0 == kk {
                            let j = choose|j: int| 0 <= j < old_pairs.len() && (#[trigger] old_pairs[j]).0 == kk;
                            assert(pairs@[j] == old_pairs[j]);
                        }
                        if kk == k {
                            assert(pairs@[old_pairs.len() as int].0 == kk);
                        }
                        if exists|j: int| 0 <= j < pairs@.len() && (#[trigger] pairs@[j]).0 == kk {
                            let j = choose|j: int| 0 <= j < pairs@.len() && (#[trigger] pairs@[j]).0 == kk;
                            if j < old_pairs.len() {
                                assert(pairs@[j] == old_pairs[j]);
                            }
                        }
                    }
                }
            }
            proof {
                if !(e.src == nd && pk.is_some()) {
                    assert forall|kk: usize| aliases_match(self, #[trigger] pair_ids(pairs@, kk), param_targets(self.graph().edges@.take(i + 1), nd, want_out, kk)) by {
                        assert(param_targets(self.graph().edges@.take(i + 1), nd, want_out, kk) == param_targets(self.graph().edges@.take(i as int), nd, want_out, kk));
                    }
                }
            }
            i = i + 1;
        }
        assert(self.graph().edges@.take(i as int) =~= self.graph().edges@);
        let ghost mid = *self;
        let mut r: Vec<Parameter> = Vec::new();
        let mut q: usize = 0;
        while q < idxs.len()
            invariant
                q <= idxs@.len(),
                idxs@.len() <= self.graph().edges@.len(),
                self.wf(),
                self.grows_from(old(self)),
                self.grows_from(&mid),
                mid.wf(),
                self.next_id() <= mid.next_id() + q,
                mid.next_id() <= old(self).next_id() + self.graph().edges@.len(),
                old(self).next_id() + 2 * old(self).graph().edges@.len() <= usize::MAX,
                strictly_ascending(idxs@),
                forall|j: int| 0 <= j < pairs@.len() ==> alias_of_param_edge(&mid, nd, want_out, (#[trigger] pairs@[j]).0, pairs@[j].1),
                forall|k: usize| #[trigger] idxs@.contains(k) <==> exists|j: int| 0 <= j < pairs@.len() && (#[trigger] pairs@[j]).0 == k,
                r@.len() == q,
                forall|j: int| 0 <= j < q ==> (#[trigger] r@[j]).index == idxs@[j],
                forall|j: int| 0 <= j < q ==> param_typed(self, nd, want_out, #[trigger] r@[j]),
                forall|j: int| 0 <= j < q ==> param_exact(self, nd, want_out, #[trigger] r@[j]),
                forall|k: usize| aliases_match(&mid, #[trigger] pair_ids(pairs@, k), param_targets(mid.graph().edges@, nd, want_out, k)),
            decreases idxs@.len() - q,
        {
            let k = idxs[q];
            let mut ids: Vec<TypeId> = Vec::new();
            let mut j: usize = 0;
            while j < pairs.len()
                invariant
                    j <= pairs@.len(),
                    forall|m: int| 0 <= m < ids@.len() ==> alias_of_param_edge(&mid, nd, want_out, k, #[trigger] ids@[m]),
                    forall|m: int| 0 <= m < j && (#[trigger] pairs@[m]).0 == k ==> ids@.len() > 0,
                    forall|m: int| 0 <= m < pairs@.len() ==> alias_of_param_edge(&mid, nd, want_out, (#[trigger] pairs@[m]).0, pairs@[m].1),
                    ids@ == pair_ids(pairs@.take(j as int), k),
                decreases pairs@.len() - j,
            {
                assert(pairs@.take(j + 1).drop_last() =~= pairs@.take(j as int));
                if pairs[j].0 == k {
                    ids.push(pairs[j].1);
                }
                j = j + 1;
            }
            assert(pairs@.take(j as int) =~= pairs@);
            assert(aliases_match(&mid, ids@, param_targets(mid.graph().edges@, nd, want_out, k)));
            assert(idxs@.contains(k));
            let ghost prev = *self;
            let ghost ids_g = ids@;
            let tid = if ids.len() == 1 {
                ids[0]
            } else {
                let ghost ids_v = ids;
                let u = self.add_type(CType::Union(ids));
                proof {
                    assert(self.ty(u) == CType::Union(ids_v));
                }
                u
            };
            r.push(Parameter { index: k, type_index: tid });
            proof {
                assert forall|m: int| 0 <= m < q + 1 implies param_typed(self, nd, want_out, #[trigger] r@[m]) by {
                    if m < q {
                        lemma_param_typed_keeps(&prev, self, nd, want_out, r@[m]);
                    } else {
                        lemma_alias_keeps_all(&mid, self, nd, want_out, k);
                    }
                }
                lemma_aliases_match_keeps(&mid, self, ids_g, param_targets(mid.graph().edges@, nd, want_out, k));
                assert forall|m: int| 0 <= m < q + 1 implies param_exact(self, nd, want_out, #[trigger] r@[m]) by {
                    if m < q {
                        lemma_param_exact_keeps(&prev, self, nd, want_out, r@[m]);
                    }
                }
            }
            q = q + 1;
        }
        proof {
            assert forall|k: usize| #[trigger] has_param_edge(self.graph(), nd, want_out, k) <==> exists|i: int| 0 <= i < r@.len() && (#[trigger] r@[i]).index == k by {
                if has_param_edge(self.graph(), nd, want_out, k) {
                    assert(idxs@.contains(k));
                    let j = choose|j: int| 0 <= j < idxs@.len() && idxs@[j] == k;
                    assert(r@[j].index == k);
                }
                if exists|i: int| 0 <= i < r@.len() && (#[trigger] r@[i]).index == k {
                    let i = choose|i: int| 0 <= i < r@.len() && (#[trigger] r@[i]).index == k;
                    assert(idxs@.contains(idxs@[i]));
                }
            }
        }
        r
    }
}

/// The index that label `l` carries for a parameter list: `In(k)` gives `k`
/// for in-parameters, `Out(k)` for out-parameters.
pub open spec fn param_label_index(l: FieldLabel, want_out: bool) -> Option<usize> {
    match l {
        FieldLabel::In(k) => if want_out { None } else { Some(k) },
        FieldLabel::Out(k) => if want_out { Some(k) } else { None },
        _ => None,
    }
}

fn param_index_of(l: FieldLabel, want_out: bool) -> (r: Option<usize>)
    ensures
        r == param_label_index(l, want_out),
{
    match l {
        FieldLabel::In(k) => if want_out { None } else { Some(k) },
        FieldLabel::Out(k) => if want_out { Some(k) } else { None },
        _ => None,
    }
}

/// `nd` has an edge whose label carries parameter index `k`.
pub open spec fn has_param_edge(g: &SketchGraph, nd: usize, want_out: bool, k: usize) -> bool {
    exists|e: int| 0 <= e < g.edges@.len() && (#[trigger] g.edges@[e]).src == nd && param_label_index(g.edges@[e].label, want_out) == Some(k)
}

/// `id` is an alias of the target of an edge out of `nd` carrying index `k`.
pub open spec fn alias_of_param_edge(ctx: &LoweringContext, nd: usize, want_out: bool, k: usize, id: TypeId) -> bool {
    &&& ctx.holds(id)
    &&& exists|e: int| 0 <= e < ctx.graph().edges@.len() && (#[trigger] ctx.graph().edges@[e]).src == nd
        && param_label_index(ctx.graph().edges@[e].label, want_out) == Some(k)
        && ctx.ty(id) == CType::Alias(NodeIndex(ctx.graph().edges@[e].dst))
}

/// The type of `p` is an alias of the target of an edge carrying its index, or
/// a union of two or more such aliases.
pub open spec fn param_typed(ctx: &LoweringContext, nd: usize, want_out: bool, p: Parameter) -> bool {
    alias_of_param_edge(ctx, nd, want_out, p.index, p.type_index) || (ctx.holds(p.type_index) && match ctx.ty(p.type_index) {
        CType::Union(ids) => ids@.len() >= 2 && forall|m: int| 0 <= m < ids@.len() ==> alias_of_param_edge(ctx, nd, want_out, p.index, #[trigger] ids@[m]),
        _ => false,
    })
}

/// The targets of the edges out of `nd` that carry parameter index `k`, in
/// edge order.
pub open spec fn param_targets(es: Seq<SketchEdge>, nd: usize, want_out: bool, k: usize) -> Seq<usize>
    decreases es.len(),
{
    if es.len() == 0 {
        Seq::empty()
    } else {
        let rest = param_targets(es.drop_last(), nd, want_out, k);
        if es.last().src == nd && param_label_index(es.last().label, want_out) == Some(k) {
            rest.push(es.last().dst)
        } else {
            rest
        }
    }
}

/// The type ids recorded for index `k`, in order.
pub open spec fn pair_ids(ps: Seq<(usize, TypeId)>, k: usize) -> Seq<TypeId>
    decreases ps.len(),
{
    if ps.len() == 0 {
        Seq::empty()
    } else {
        let rest = pair_ids(ps.drop_last(), k);
        if ps.last().0 == k { rest.push(ps.last().1) } else { rest }
    }
}

/// `ids` are aliases of the nodes `ts`, one for one and in order, with
/// ascending ids.
pub open spec fn aliases_match(ctx: &LoweringContext, ids: Seq<TypeId>, ts: Seq<usize>) -> bool {
    &&& ids.len() == ts.len()
    &&& forall|m: int| 0 <= m < ids.len() ==> ctx.holds(#[trigger] ids[m]) && ctx.ty(ids[m]) == CType::Alias(NodeIndex(ts[m]))
    &&& forall|i: int, j: int| 0 <= i < j < ids.len() ==> (#[trigger] ids[i]).0 < (#[trigger] ids[j]).0
}

/// The type of `p` is exactly what its index calls for: an alias of the
/// target where one edge carries the index, otherwise a union of aliases of
/// the targets of those edges, one per edge in edge order.
pub open spec fn param_exact(ctx: &LoweringContext, nd: usize, want_out: bool, p: Parameter) -> bool {
    let ts = param_targets(ctx.graph().edges@, nd, want_out, p.index);
    &&& ctx.holds(p.type_index)
    &&& if ts.len() == 1 {
        ctx.ty(p.type_index) == CType::Alias(NodeIndex(ts[0]))
    } else {
        match ctx.ty(p.type_index) {
            CType::Union(ids) => aliases_match(ctx, ids@, ts),
            _ => false,
        }
    }
}

proof fn lemma_aliases_match_keeps(prev: &LoweringContext, cur: &LoweringContext, ids: Seq<TypeId>, ts: Seq<usize>)
    requires
        prev.wf(),
        cur.wf(),
        cur.grows_from(prev),
        aliases_match(prev, ids, ts),
    ensures
        aliases_match(cur, ids, ts),
{
    assert forall|m: int| 0 <= m < ids.len() implies cur.holds(#[trigger] ids[m]) && cur.ty(ids[m]) == CType::Alias(NodeIndex(ts[m])) by {
        cur.lemma_grows_keeps(prev, ids[m]);
    }
}

proof fn lemma_param_exact_keeps(prev: &LoweringContext, cur: &LoweringContext, nd: usize, want_out: bool, p: Parameter)
    requires
        prev.wf(),
        cur.wf(),
        cur.grows_from(prev),
        param_exact(prev, nd, want_out, p),
    ensures
        param_exact(cur, nd, want_out, p),
{
    cur.lemma_grows_keeps(prev, p.type_index);
    let ts = param_targets(prev.graph().edges@, nd, want_out, p.index);
    if ts.len() != 1 {
        lemma_aliases_match_keeps(prev, cur, prev.ty(p.type_index)->Union_0@, ts);
    }
}

proof fn lemma_alias_keeps(prev: &LoweringContext, cur: &LoweringContext, nd: usize, want_out: bool, k: usize, id: TypeId)
    requires
        prev.wf(),
        cur.wf(),
        cur.grows_from(prev),
        alias_of_param_edge(prev, nd, want_out, k, id),
    ensures
        alias_of_param_edge(cur, nd, want_out, k, id),
{
    cur.lemma_grows_keeps(prev, id);
}

proof fn lemma_alias_keeps_all(prev: &LoweringContext, cur: &LoweringContext, nd: usize, want_out: bool, k: usize)
    requires
        prev.wf(),
        cur.wf(),
        cur.grows_from(prev),
    ensures
        forall|id: TypeId| #[trigger] alias_of_param_edge(prev, nd, want_out, k, id) ==> alias_of_param_edge(cur, nd, want_out, k, id),
{
    assert forall|id: TypeId| #[trigger] alias_of_param_edge(prev, nd, want_out, k, id) implies alias_of_param_edge(cur, nd, want_out, k, id) by {
        lemma_alias_keeps(prev, cur, nd, want_out, k, id);
    }
}

proof fn lemma_param_typed_keeps(prev: &LoweringContext, cur: &LoweringContext, nd: usize, want_out: bool, p: Parameter)
    requires
        prev.wf(),
        cur.wf(),
        cur.grows_from(prev),
        param_typed(prev, nd, want_out, p),
    ensures
        param_typed(cur, nd, want_out, p),
{
    lemma_alias_keeps_all(prev, cur, nd, want_out, p.index);
    if !alias_of_param_edge(prev, nd, want_out, p.index, p.type_index) {
        cur.lemma_grows_keeps(prev, p.type_index);
    }
}

/// The byte offset of the `i`-th return field: the sum of the byte sizes of
/// the locations before it.
pub open spec fn offset_sum(locs: Seq<usize>, i: int) -> int
    decreases i,
{
    if i <= 0 {
        0
    } else {
        offset_sum(locs, i - 1) + locs[i - 1] / 8
    }
}

proof fn lemma_offset_sum_mono(locs: Seq<usize>, i: int, j: int)
    requires
        0 <= i <= j,
    ensures
        offset_sum(locs, i) <= offset_sum(locs, j),
    decreases j - i,
{
    if i < j {
        lemma_offset_sum_mono(locs, i, j - 1);
    }
}

/// The type of the first parameter with index `i`, if any.
pub open spec fn param_for(params: Seq<Parameter>, i: usize) -> Option<TypeId>
    decreases params.len(),
{
    if params.len() == 0 {
        None
    } else if params[0].index == i {
        Some(params[0].type_index)
    } else {
        param_for(params.drop_first(), i)
    }
}

fn lookup_param(params: &Vec<Parameter>, i: usize) -> (r: Option<TypeId>)
    ensures
        r == param_for(params@, i),
{
    let mut j: usize = 0;
    assert(params@.subrange(0, params@.len() as int) =~= params@);
    while j < params.len()
        invariant
            j <= params@.len(),
            param_for(params@, i) == param_for(params@.subrange(j as int, params@.len() as int), i),
        decreases params@.len() - j,
    {
        assert(params@.subrange(j as int, params@.len() as int).drop_first() =~= params@.subrange(
            j + 1,
            params@.len() as int,
        ));
        if params[j].index == i {
            return Some(params[j].type_index);
        }
        j = j + 1;
    }
    None
}

/// Whether the byte offsets of all return fields fit in a `usize`.
pub fn return_offsets_fit(locs: &Vec<usize>) -> (r: bool)
    ensures
        r == (offset_sum(locs@, locs@.len() as int) <= usize::MAX),
{
    let mut sum: usize = 0;
    let mut i: usize = 0;
    while i < locs.len()
        invariant
            i <= locs@.len(),
            sum == offset_sum(locs@, i as int),
        decreases locs@.len() - i,
    {
        let add = locs[i] / 8;
        if sum > usize::MAX - add {
            proof {
                lemma_offset_sum_mono(locs@, i + 1, locs@.len() as int);
            }
            return false;
        }
        sum = sum + add;
        i = i + 1;
    }
    true
}

/// A return structure laid out from formal out-locations: field `i` sits at
/// `offset_sum(locs, i)`, is `locs[i]` bits wide, and has the type of the
/// parameter with index `i`, or the default primitive where there is none.
pub open spec fn is_return_structure(ctx: &LoweringContext, c: CType, locs: Seq<usize>, params: Seq<Parameter>) -> bool {
    match c {
        CType::Structure(fs) => fs@.len() == locs.len() && forall|i: int| 0 <= i < locs.len() ==> {
            &&& (#[trigger] fs@[i]).byte_offset == offset_sum(locs, i)
            &&& fs@[i].bit_sz == locs[i]
            &&& ctx.holds(fs@[i].type_index)
            &&& match param_for(params, i as usize) {
                Some(t) => fs@[i].type_index == t,
                None => is_primitive_named(ctx.ty(fs@[i].type_index), ctx.default_upper()),
            }
        },
        _ => false,
    }
}

impl<'a> LoweringContext<'a> {
    fn build_return_type_structure(&mut self, orig_param_locs: &Vec<usize>, params: &Vec<Parameter>) -> (r: CType)
        requires
            old(self).wf(),
            old(self).next_id() + orig_param_locs@.len() <= usize::MAX,
            offset_sum(orig_param_locs@, orig_param_locs@.len() as int) <= usize::MAX,
            forall|i: int| 0 <= i < params@.len() ==> old(self).holds(#[trigger] params@[i].type_index),
        ensures
            final(self).wf(),
            final(self).grows_from(old(self)),
            final(self).next_id() <= old(self).next_id() + orig_param_locs@.len(),
            is_return_structure(final(self), r, orig_param_locs@, params@),
            (forall|i: int| 0 <= i < orig_param_locs@.len() ==> (#[trigger] param_for(params@, i as usize)) is Some)
                ==> final(self).next_id() == old(self).next_id(),
    {
        let d = self.default_lattice_elem.duplicate();
        let mut flds: Vec<Field> = Vec::new();
        let mut curr_off: usize = 0;
        let mut i: usize = 0;
        while i < orig_param_locs.len()
            invariant
                i <= orig_param_locs@.len(),
                self.wf(),
                self.grows_from(old(self)),
                d.upper@ == self.default_upper(),
                self.next_id() <= old(self).next_id() + i,
                old(self).next_id() + orig_param_locs@.len() <= usize::MAX,
                offset_sum(orig_param_locs@, orig_param_locs@.len() as int) <= usize::MAX,
                forall|m: int| 0 <= m < params@.len() ==> old(self).holds(#[trigger] params@[m].type_index),
                curr_off == offset_sum(orig_param_locs@, i as int),
                (forall|m: int| 0 <= m < i ==> (#[trigger] param_for(params@, m as usize)) is Some) ==> self.next_id() == old(self).next_id(),
                flds@.len() == i,
                forall|m: int| 0 <= m < i ==> {
                    &&& (#[trigger] flds@[m]).byte_offset == offset_sum(orig_param_locs@, m)
                    &&& flds@[m].bit_sz == orig_param_locs@[m]
                    &&& self.holds(flds@[m].type_index)
                    &&& match param_for(params@, m as usize) {
                        Some(t) => flds@[m].type_index == t,
                        None => is_primitive_named(self.ty(flds@[m].type_index), self.default_upper()),
                    }
                },
            decreases orig_param_locs@.len() - i,
        {
            let ghost prev = *self;
            let sz = orig_param_locs[i];
            let ty = match lookup_param(params, i) {
                Some(t) => t,
                None => self.build_terminal_type(&d),
            };
            assert(param_for(params@, (i as int) as usize) is Some ==> self.next_id() == prev.next_id());
            flds.push(Field { byte_offset: curr_off, bit_sz: sz, type_index: ty });
            proof {
                lemma_offset_sum_mono(orig_param_locs@, i + 1, orig_param_locs@.len() as int);
                assert forall|m: int| 0 <= m < i + 1 implies {
                    &&& (#[trigger] flds@[m]).byte_offset == offset_sum(orig_param_locs@, m)
                    &&& flds@[m].bit_sz == orig_param_locs@[m]
                    &&& self.holds(flds@[m].type_index)
                    &&& match param_for(params@, m as usize) {
                        Some(t) => flds@[m].type_index == t,
                        None => is_primitive_named(self.ty(flds@[m].type_index), self.default_upper()),
                    }
                } by {
                    if m < i {
                        self.lemma_grows_keeps(&prev, flds@[m].type_index);
                    } else {
                        if let Some(t) = param_for(params@, m as usize) {
                            lemma_param_for_in(params@, m as usize);
                            let q = choose|q: int| 0 <= q < params@.len() && params@[q].type_index == t;
                            assert(old(self).holds(params@[q].type_index));
                        }
                    }
                }
            }
            curr_off = curr_off + sz / 8;
            i = i + 1;
        }
        CType::Structure(flds)
    }
}

proof fn lemma_param_for_in(params: Seq<Parameter>, i: usize)
    requires
        param_for(params, i).is_some(),
    ensures
        exists|q: int| 0 <= q < params.len() && params[q].type_index == param_for(params, i).unwrap(),
    decreases params.len(),
{
    if params[0].index == i {
        assert(params[0].type_index == param_for(params, i).unwrap());
    } else {
        lemma_param_for_in(params.drop_first(), i);
        let q = choose|q: int| 0 <= q < params.drop_first().len() && params.drop_first()[q].type_index == param_for(params.drop_first(), i).unwrap();
        assert(params[q + 1] == params.drop_first()[q]);
    }
}

/// `nd` has an edge carrying some parameter index.
pub open spec fn has_any_param_edge(g: &SketchGraph, nd: usize, want_out: bool) -> bool {
    exists|k: usize| #[trigger] has_param_edge(g, nd, want_out, k)
}

/// The parameters meet what `collect_params` promises for `nd`.
pub open spec fn params_of_node(ctx: &LoweringContext, nd: usize, want_out: bool, params: Seq<Parameter>) -> bool {
    &&& forall|i: int, j: int| 0 <= i < j < params.len() ==> (#[trigger] params[i]).index < (#[trigger] params[j]).index
    &&& forall|k: usize| #[trigger] has_param_edge(ctx.graph(), nd, want_out, k) <==> exists|i: int| 0 <= i < params.len() && (#[trigger] params[i]).index == k
    &&& forall|i: int| 0 <= i < params.len() ==> param_typed(ctx, nd, want_out, #[trigger] params[i])
    &&& forall|i: int| 0 <= i < params.len() ==> param_exact(ctx, nd, want_out, #[trigger] params[i])
}

/// The return type of a function with out-parameters `outs` and formal
/// out-locations `locs`: the padded return structure where there are
/// several of either, the type of the one out-parameter, or none.
pub open spec fn return_of(ctx: &LoweringContext, ret: Option<TypeId>, locs: Seq<usize>, outs: Seq<Parameter>) -> bool {
    if outs.len() > 1 || locs.len() > 1 {
        ret is Some && ctx.holds(ret->Some_0) && is_return_structure(ctx, ctx.ty(ret->Some_0), locs, outs)
    } else if outs.len() == 1 {
        ret == Some(outs[0].type_index)
    } else {
        ret is None
    }
}

/// The function candidate of `nd`, as `build_function_types` makes it.
pub open spec fn is_function_of(ctx: &LoweringContext, nd: usize, c: CType) -> bool {
    match c {
        CType::Function { params, return_ty } => {
            &&& params_of_node(ctx, nd, false, params@)
            &&& exists|outs: Seq<Parameter>| #[trigger] params_of_node(ctx, nd, true, outs)
                && return_of(ctx, return_ty, out_locs_of(ctx.out_params_view(), nd), outs)
        },
        _ => false,
    }
}

proof fn lemma_function_keeps(prev: &LoweringContext, cur: &LoweringContext, nd: usize, c: CType)
    requires
        prev.wf(),
        cur.wf(),
        cur.grows_from(prev),
        is_function_of(prev, nd, c),
    ensures
        is_function_of(cur, nd, c),
{
    if let CType::Function { params, return_ty } = c {
        lemma_params_of_node_keeps(prev, cur, nd, false, params@);
        let locs = out_locs_of(prev.out_params_view(), nd);
        let outs = choose|outs: Seq<Parameter>| #[trigger] params_of_node(prev, nd, true, outs)
            && return_of(prev, return_ty, locs, outs);
        lemma_params_of_node_keeps(prev, cur, nd, true, outs);
        if outs.len() > 1 || locs.len() > 1 {
            cur.lemma_grows_keeps(prev, return_ty->Some_0);
            lemma_return_structure_keeps(prev, cur, prev.ty(return_ty->Some_0), locs, outs);
        }
        assert(return_of(cur, return_ty, out_locs_of(cur.out_params_view(), nd), outs));
    }
}

proof fn lemma_params_of_node_keeps(prev: &LoweringContext, cur: &LoweringContext, nd: usize, want_out: bool, params: Seq<Parameter>)
    requires
        prev.wf(),
        cur.wf(),
        cur.grows_from(prev),
        params_of_node(prev, nd, want_out, params),
    ensures
        params_of_node(cur, nd, want_out, params),
{
    assert forall|i: int| 0 <= i < params.len() implies param_typed(cur, nd, want_out, #[trigger] params[i]) by {
        lemma_param_typed_keeps(prev, cur, nd, want_out, params[i]);
    }
    assert forall|i: int| 0 <= i < params.len() implies param_exact(cur, nd, want_out, #[trigger] params[i]) by {
        lemma_param_exact_keeps(prev, cur, nd, want_out, params[i]);
    }
}

impl<'a> LoweringContext<'a> {
    fn out_locs(&self, nd: usize) -> (r: Vec<usize>)
        ensures
            r@ == out_locs_of(self.out_params_view(), nd),
    {
        let mut j: usize = 0;
        let ghost v = self.out_params_view();
        assert(v.subrange(0, v.len() as int) =~= v);
        while j < self.out_params.len()
            invariant
                j <= self.out_params@.len(),
                v == self.out_params_view(),
                v.len() == self.out_params@.len(),
                out_locs_of(v, nd) == out_locs_of(v.subrange(j as int, v.len() as int), nd),
            decreases self.out_params@.len() - j,
        {
            assert(v.subrange(j as int, v.len() as int).drop_first() =~= v.subrange(j + 1, v.len() as int));
            assert(v[j as int] == (self.out_params@[j as int].0, self.out_params@[j as int].1@));
            if self.out_params[j].0 == nd {
                return self.out_params[j].1.clone();
            }
            j = j + 1;
        }
        Vec::new()
    }

    /// The function candidate of `nd`, where it has an `In` or `Out` edge:
    /// its in-parameters, and as return type the padded return structure
    /// where it has several out-parameters or several formal out-locations,
    /// else the type of its one out-parameter, else none.
    fn build_function_types(&mut self, nd: usize) -> (r: Vec<CType>)
        requires
            old(self).wf(),
            old(self).next_id() + 4 * old(self).graph().edges@.len() + out_locs_of(old(self).out_params_view(), nd).len() + 1 <= usize::MAX,
            offset_sum(out_locs_of(old(self).out_params_view(), nd), out_locs_of(old(self).out_params_view(), nd).len() as int) <= usize::MAX,
        ensures
            final(self).wf(),
            final(self).grows_from(old(self)),
            final(self).next_id() <= old(self).next_id() + 4 * old(self).graph().edges@.len() + out_locs_of(old(self).out_params_view(), nd).len() + 1,
            r@.len() <= 1,
            (r@.len() == 1) == (has_any_param_edge(old(self).graph(), nd, false) || has_any_param_edge(old(self).graph(), nd, true)),
            r@.len() == 1 ==> is_function_of(final(self), nd, r@[0]),
    {
        let ins = self.collect_params(nd, false);
        let ghost after_ins = *self;
        let outs = self.collect_params(nd, true);
        let ghost after_outs = *self;
        proof {
            lemma_params_of_node_keeps(&after_ins, self, nd, false, ins@);
        }
        let locs = self.out_locs(nd);
        let oparam = if outs.len() > 1 || locs.len() > 1 {
            proof {
                assert forall|i: int| 0 <= i < outs@.len() implies self.holds(#[trigger] outs@[i].type_index) by {
                    assert(param_typed(self, nd, true, outs@[i]));
                }
            }
            let ret_struct = self.build_return_type_structure(&locs, &outs);
            let ghost before_add = *self;
            let t = self.add_type(ret_struct);
            proof {
                lemma_params_of_node_keeps(&after_outs, &before_add, nd, true, outs@);
                lemma_return_structure_keeps(&before_add, self, ret_struct, locs@, outs@);
                lemma_params_of_node_keeps(&before_add, self, nd, true, outs@);
            }
            Some(t)
        } else if outs.len() == 1 {
            proof {
                assert(param_typed(self, nd, true, outs@[0]));
                assert(has_param_edge(self.graph(), nd, true, outs@[0].index));
            }
            Some(outs[0].type_index)
        } else {
            None
        };
        proof {
            lemma_params_of_node_keeps(&after_outs, self, nd, false, ins@);
            lemma_params_of_node_keeps(&after_outs, self, nd, true, outs@);
            assert(return_of(self, oparam, out_locs_of(self.out_params_view(), nd), outs@));
            if has_any_param_edge(self.graph(), nd, true) {
                let k = choose|k: usize| #[trigger] has_param_edge(self.graph(), nd, true, k);
                assert(exists|i: int| 0 <= i < outs@.len() && (#[trigger] outs@[i]).index == k);
            }
            if outs@.len() > 0 {
                assert(has_param_edge(self.graph(), nd, true, outs@[0].index));
            }
            if has_any_param_edge(self.graph(), nd, false) {
                let k = choose|k: usize| #[trigger] has_param_edge(self.graph(), nd, false, k);
                assert(exists|i: int| 0 <= i < ins@.len() && (#[trigger] ins@[i]).index == k);
            }
            if ins@.len() > 0 {
                assert(has_param_edge(self.graph(), nd, false, ins@[0].index));
            }
        }
        if ins.len() > 0 || outs.len() > 0 {
            let mut r: Vec<CType> = Vec::new();
            r.push(CType::Function { params: ins, return_ty: oparam });
            r
        } else {
            Vec::new()
        }
    }
}

proof fn lemma_return_structure_keeps(prev: &LoweringContext, cur: &LoweringContext, c: CType, locs: Seq<usize>, params: Seq<Parameter>)
    requires
        prev.wf(),
        cur.wf(),
        cur.grows_from(prev),
        is_return_structure(prev, c, locs, params),
    ensures
        is_return_structure(cur, c, locs, params),
{
    let fs = c->Structure_0;
    assert forall|i: int| 0 <= i < locs.len() implies cur.holds((#[trigger] fs@[i]).type_index) && (param_for(params, i as usize).is_none() ==> is_primitive_named(cur.ty(fs@[i].type_index), cur.default_upper())) by {
        cur.lemma_grows_keeps(prev, fs@[i].type_index);
    }
}

/// A candidate type of a node: a structure, alias, pointer or function.
pub open spec fn is_candidate(c: CType) -> bool {
    c is Structure || c is Alias || c is Pointer || c is Function
}

/// No candidate list holds both an alias and a structure.
pub open spec fn alias_structure_exclusive(cands: Seq<CType>) -> bool {
    !((exists|i: int| 0 <= i < cands.len() && (#[trigger] cands[i]) is Alias) && (exists|j: int|
        0 <= j < cands.len() && (#[trigger] cands[j]) is Structure))
}

/// The number of ids a node may use up when it is lowered.
pub open spec fn node_cost(ctx: &LoweringContext, nd: usize) -> int {
    9 * ctx.graph().edges@.len() + out_locs_of(ctx.out_params_view(), nd).len() + 4int
}

fn has_out_edges(g: &SketchGraph, nd: usize) -> (r: bool)
    ensures
        r == g.has_out_edge(nd),
{
    let mut i: usize = 0;
    while i < g.edges.len()
        invariant
            i <= g.edges@.len(),
            forall|k: int| 0 <= k < i ==> (#[trigger] g.edges@[k]).src != nd,
        decreases g.edges@.len() - i,
    {
        if g.edges[i].src == nd {
            return true;
        }
        i = i + 1;
    }
    false
}

fn append_candidates(dst: &mut Vec<CType>, src: Vec<CType>)
    ensures
        final(dst)@ == old(dst)@ + src@,
{
    let mut src = src;
    let ghost s0 = src@;
    let mut rev: Vec<CType> = Vec::new();
    while src.len() > 0
        invariant
            s0 == src@ + rev@.reverse(),
        decreases src@.len(),
    {
        let c = src.pop().unwrap();
        let ghost before = rev@;
        rev.push(c);
        assert(rev@.reverse() =~= seq![c] + before.reverse());
        assert(src@ + rev@.reverse() =~= (src@ + seq![c]) + before.reverse());
    }
    assert(rev@.reverse() =~= s0);
    let ghost d0 = dst@;
    let ghost r0 = rev@;
    while rev.len() > 0
        invariant
            dst@ + rev@.reverse() == d0 + s0,
        decreases rev@.len(),
    {
        let c = rev.pop().unwrap();
        let ghost before = dst@;
        dst.push(c);
        assert(rev@.push(c).reverse() =~= seq![c] + rev@.reverse());
        assert(dst@ + rev@.reverse() =~= before + (seq![c] + rev@.reverse()));
    }
    assert(rev@.reverse() =~= Seq::<CType>::empty());
    assert(dst@ =~= d0 + s0);
}

/// What `build_alias_types` promises of its result for `nd`.
pub open spec fn alias_cands(g: &SketchGraph, nd: usize, r: Seq<CType>) -> bool {
    &&& has_non_zero_field(g, nd) ==> r.len() == 0
    &&& forall|i: int| 0 <= i < r.len() ==> is_target(g, nd, TargetKind::Fields, #[trigger] alias_target(r[i]) as usize) && alias_target(r[i]) >= 0
    &&& !has_non_zero_field(g, nd) ==> forall|t: usize| is_target(g, nd, TargetKind::Fields, t) ==> exists|i: int| 0 <= i < r.len() && #[trigger] r[i] == CType::Alias(NodeIndex(t))
    &&& forall|i: int, j: int| 0 <= i < j < r.len() ==> alias_target(#[trigger] r[i]) < alias_target(#[trigger] r[j])
}

/// What `build_pointer_types` promises of its result for `nd`.
pub open spec fn ptr_cands(ctx: &LoweringContext, nd: usize, r: Seq<CType>) -> bool {
    &&& forall|i: int| 0 <= i < r.len() ==> (#[trigger] r[i]) is Pointer && pointer_target(ctx, r[i]) >= 0 && is_target(ctx.graph(), nd, TargetKind::Pointers, pointer_target(ctx, r[i]) as usize)
    &&& forall|t: usize| #[trigger] is_target(ctx.graph(), nd, TargetKind::Pointers, t) ==> exists|i: int| 0 <= i < r.len() && pointer_target(ctx, #[trigger] r[i]) == t
    &&& forall|i: int, j: int| 0 <= i < j < r.len() ==> pointer_target(ctx, #[trigger] r[i]) < pointer_target(ctx, #[trigger] r[j])
}

/// What `build_function_types` promises of its result for `nd`.
pub open spec fn fn_cands(ctx: &LoweringContext, nd: usize, r: Seq<CType>) -> bool {
    &&& r.len() <= 1
    &&& (r.len() == 1) == (has_any_param_edge(ctx.graph(), nd, false) || has_any_param_edge(ctx.graph(), nd, true))
    &&& r.len() == 1 ==> is_function_of(ctx, nd, r[0])
}

/// `cands` are the candidates of `nd`: its structures, then its aliases, its
/// pointers and its function.
pub open spec fn candidates_of(ctx: &LoweringContext, nd: usize, cands: Seq<CType>) -> bool {
    exists|s: Seq<CType>, a: Seq<CType>, p: Seq<CType>, f: Seq<CType>|
        #![trigger struct_cands(ctx, nd, s), alias_cands(ctx.graph(), nd, a), ptr_cands(ctx, nd, p), fn_cands(ctx, nd, f)]
        struct_cands(ctx, nd, s) && alias_cands(ctx.graph(), nd, a) && ptr_cands(ctx, nd, p) && fn_cands(ctx, nd, f)
            && cands == s + a + p + f
}

/// The type `r` is built from `cands`: the one candidate itself, or a union
/// of new types, one per candidate in order, with ascending ids.
pub open spec fn built_from(ctx: &LoweringContext, r: TypeId, cands: Seq<CType>) -> bool {
    if cands.len() == 1 {
        ctx.ty(r) == cands[0]
    } else {
        match ctx.ty(r) {
            CType::Union(ids) => ids@.len() == cands.len()
                && (forall|m: int| 0 <= m < ids@.len() ==> ctx.holds(#[trigger] ids@[m]) && ctx.ty(ids@[m]) == cands[m])
                && (forall|i: int, j: int| 0 <= i < j < ids@.len() ==> (#[trigger] ids@[i]).0 < (#[trigger] ids@[j]).0),
            _ => false,
        }
    }
}

proof fn lemma_ptr_cands_keeps(prev: &LoweringContext, cur: &LoweringContext, nd: usize, r: Seq<CType>)
    requires
        prev.wf(),
        cur.wf(),
        cur.grows_from(prev),
        ptr_cands(prev, nd, r),
    ensures
        ptr_cands(cur, nd, r),
{
    assert forall|i: int| 0 <= i < r.len() implies pointer_target(cur, r[i]) == pointer_target(prev, r[i]) by {
        let t = r[i]->Pointer_target;
        assert(pointer_target(prev, r[i]) >= 0);
        cur.lemma_grows_keeps(prev, t);
    }
    assert forall|t: usize| #[trigger] is_target(cur.graph(), nd, TargetKind::Pointers, t) implies exists|i: int| 0 <= i < r.len() && pointer_target(cur, #[trigger] r[i]) == t by {
        let i = choose|i: int| 0 <= i < r.len() && pointer_target(prev, #[trigger] r[i]) == t;
        assert(pointer_target(cur, r[i]) == pointer_target(prev, r[i]));
    }
    assert forall|i: int, j: int| 0 <= i < j < r.len() implies pointer_target(cur, #[trigger] r[i]) < pointer_target(cur, #[trigger] r[j]) by {
        assert(pointer_target(cur, r[i]) == pointer_target(prev, r[i]));
        assert(pointer_target(cur, r[j]) == pointer_target(prev, r[j]));
    }
    assert forall|i: int| 0 <= i < r.len() implies (#[trigger] r[i]) is Pointer && pointer_target(cur, r[i]) >= 0 && is_target(cur.graph(), nd, TargetKind::Pointers, pointer_target(cur, r[i]) as usize) by {
        assert(pointer_target(cur, r[i]) == pointer_target(prev, r[i]));
    }
}

proof fn lemma_candidates_keeps(prev: &LoweringContext, cur: &LoweringContext, nd: usize, c: Seq<CType>)
    requires
        prev.wf(),
        cur.wf(),
        cur.grows_from(prev),
        candidates_of(prev, nd, c),
    ensures
        candidates_of(cur, nd, c),
{
    let (s, a, p, f) = choose|s: Seq<CType>, a: Seq<CType>, p: Seq<CType>, f: Seq<CType>|
        #![trigger struct_cands(prev, nd, s), alias_cands(prev.graph(), nd, a), ptr_cands(prev, nd, p), fn_cands(prev, nd, f)]
        struct_cands(prev, nd, s) && alias_cands(prev.graph(), nd, a) && ptr_cands(prev, nd, p) && fn_cands(prev, nd, f)
            && c == s + a + p + f;
    lemma_struct_cands_keeps(prev, cur, nd, s);
    lemma_ptr_cands_keeps(prev, cur, nd, p);
    if f.len() == 1 {
        lemma_function_keeps(prev, cur, nd, f[0]);
    }
    assert(fn_cands(cur, nd, f));
    assert(alias_cands(cur.graph(), nd, a));
}

impl<'a> LoweringContext<'a> {
    /// The candidates of `nd`: its structures, then its aliases, its pointers
    /// and its function.
    #[verifier::rlimit(50)]
    fn build_candidates(&mut self, nd: usize) -> (r: Vec<CType>)
        requires
            old(self).wf(),
            old(self).next_id() + 6 * old(self).graph().edges@.len() + out_locs_of(old(self).out_params_view(), nd).len() + 1 <= usize::MAX,
            offset_sum(out_locs_of(old(self).out_params_view(), nd), out_locs_of(old(self).out_params_view(), nd).len() as int) <= usize::MAX,
        ensures
            final(self).wf(),
            final(self).grows_from(old(self)),
            final(self).next_id() <= old(self).next_id() + 6 * old(self).graph().edges@.len() + out_locs_of(old(self).out_params_view(), nd).len() + 1,
            r@.len() <= 3 * old(self).graph().edges@.len() + 1,
            candidates_of(final(self), nd, r@),
            forall|i: int| 0 <= i < r@.len() ==> is_candidate(#[trigger] r@[i]),
            alias_structure_exclusive(r@),
    {
        let g = self.grph;
        let ghost c0 = *self;
        let struct_types = self.build_structure_types(nd);
        let ghost c1 = *self;
        let alias_types = build_alias_types(nd, g);
        let pointer_types = self.build_pointer_types(nd);
        let ghost c2 = *self;
        let function_types = self.build_function_types(nd);
        let ghost sv = struct_types@;
        let ghost av = alias_types@;
        let ghost pv = pointer_types@;
        let ghost fv = function_types@;
        let mut total: Vec<CType> = Vec::new();
        append_candidates(&mut total, struct_types);
        append_candidates(&mut total, alias_types);
        append_candidates(&mut total, pointer_types);
        append_candidates(&mut total, function_types);
        proof {
            let t = total@;
            assert(t =~= sv + av + pv + fv);
            assert(has_non_zero_field(c0.graph(), nd) == has_non_zero_field(self.graph(), nd));
            lemma_struct_cands_keeps(&c1, self, nd, sv);
            lemma_ptr_cands_keeps(&c2, self, nd, pv);
            assert(alias_cands(self.graph(), nd, av));
            assert(fn_cands(self, nd, fv));
            assert(candidates_of(self, nd, t));
            assert forall|i: int| 0 <= i < t.len() implies is_candidate(#[trigger] t[i]) by {
                if i < sv.len() {
                    assert(t[i] == sv[i]);
                    assert(sv[i] is Structure);
                } else if i < sv.len() + av.len() {
                    assert(t[i] == av[i - sv.len()]);
                    assert(alias_target(av[i - sv.len()]) >= 0);
                } else if i < sv.len() + av.len() + pv.len() {
                    assert(t[i] == pv[i - sv.len() - av.len()]);
                } else {
                    assert(t[i] == fv[i - sv.len() - av.len() - pv.len()]);
                    assert(is_function_of(self, nd, fv[0]));
                }
            }
            if exists|j: int| 0 <= j < t.len() && (#[trigger] t[j]) is Structure {
                let j = choose|j: int| 0 <= j < t.len() && (#[trigger] t[j]) is Structure;
                if j >= sv.len() {
                    if j < sv.len() + av.len() {
                        assert(t[j] == av[j - sv.len()]);
                    } else if j < sv.len() + av.len() + pv.len() {
                        assert(t[j] == pv[j - sv.len() - av.len()]);
                    } else {
                        assert(t[j] == fv[j - sv.len() - av.len() - pv.len()]);
                        assert(is_function_of(self, nd, fv[0]));
                    }
                }
                assert(sv.len() > 0);
                assert(has_non_zero_field(self.graph(), nd));
                assert forall|i: int| 0 <= i < t.len() implies !((#[trigger] t[i]) is Alias) by {
                    if i < sv.len() {
                        assert(t[i] == sv[i]);
                    } else if i < sv.len() + av.len() {
                        assert(false);
                    } else if i < sv.len() + av.len() + pv.len() {
                        assert(t[i] == pv[i - sv.len() - av.len()]);
                    } else {
                        assert(t[i] == fv[i - sv.len() - av.len() - pv.len()]);
                        assert(is_function_of(self, nd, fv[0]));
                    }
                }
            }
        }
        total
    }

    /// The type of `nd`: the primitive named after its upper bound where it
    /// has no outgoing edge; otherwise its one candidate, or a union of new
    /// types for its candidates, in order, where there are none or several.
    fn build_type(&mut self, nd: usize) -> (r: TypeId)
        requires
            old(self).wf(),
            nd < old(self).graph().nodes@.len(),
            old(self).next_id() + node_cost(old(self), nd) <= usize::MAX,
            offset_sum(out_locs_of(old(self).out_params_view(), nd), out_locs_of(old(self).out_params_view(), nd).len() as int) <= usize::MAX,
        ensures
            final(self).wf(),
            final(self).grows_from(old(self)),
            final(self).next_id() <= old(self).next_id() + node_cost(old(self), nd),
            final(self).holds(r),
            !old(self).graph().has_out_edge(nd) ==> is_primitive_named(final(self).ty(r), old(self).graph().nodes@[nd as int].upper@),
            old(self).graph().has_out_edge(nd) ==> match final(self).ty(r) {
                CType::Union(ids) => ids@.len() != 1 && forall|m: int| 0 <= m < ids@.len() ==> final(self).holds(#[trigger] ids@[m]) && is_candidate(final(self).ty(ids@[m])),
                c => is_candidate(c),
            },
            old(self).graph().has_out_edge(nd) ==> exists|cands: Seq<CType>| #[trigger] candidates_of(final(self), nd, cands)
                && alias_structure_exclusive(cands) && built_from(final(self), r, cands),
    {
        if !has_out_edges(self.grph, nd) {
            let g = self.grph;
            return self.build_terminal_type(&g.nodes[nd]);
        }
        let total = self.build_candidates(nd);
        let ghost t0 = total@;
        let ghost mid = *self;
        if total.len() == 1 {
            let mut total = total;
            let c = total.pop().unwrap();
            let r = self.add_type(c);
            proof {
                lemma_candidates_keeps(&mid, self, nd, t0);
                assert(built_from(self, r, t0));
            }
            return r;
        }
        assert(total@.len() <= 3 * self.graph().edges@.len() + 1);
        let mut rest = total;
        let mut rev = reversed(rest);
        assert(rev@.reverse() =~= t0);
        assert(t0.subrange(0, t0.len() as int) =~= t0);
        let ghost n = t0.len();
        let mut ids: Vec<TypeId> = Vec::new();
        while rev.len() > 0
            invariant
                rev@.len() + ids@.len() == n,
                n == t0.len(),
                n <= 3 * self.graph().edges@.len() + 1,
                n != 1,
                rev@.reverse() == t0.subrange(ids@.len() as int, n as int),
                self.wf(),
                self.grows_from(old(self)),
                self.grows_from(&mid),
                mid.wf(),
                self.next_id() == mid.next_id() + ids@.len(),
                mid.next_id() <= old(self).next_id() + 6 * self.graph().edges@.len() + out_locs_of(old(self).out_params_view(), nd).len() + 1,
                old(self).next_id() + node_cost(old(self), nd) <= usize::MAX,
                forall|m: int| 0 <= m < t0.len() ==> is_candidate(#[trigger] t0[m]),
                forall|m: int| 0 <= m < ids@.len() ==> self.holds(#[trigger] ids@[m]) && self.ty(ids@[m]) == t0[m]
                    && ids@[m].0 == mid.next_id() + m,
            decreases rev@.len(),
        {
            let ghost prev = *self;
            let ghost before = rev@;
            let ghost k: int = ids@.len() as int;
            let c = rev.pop().unwrap();
            proof {
                assert(before =~= rev@.push(c));
                assert(before.reverse() =~= seq![c] + rev@.reverse());
                assert(t0.subrange(k, n as int)[0] == t0[k]);
                assert((seq![c] + rev@.reverse())[0] == c);
                assert(t0.subrange(k, n as int) =~= seq![c] + t0.subrange(k + 1, n as int));
                assert((seq![c] + rev@.reverse()).drop_first() =~= rev@.reverse());
                assert((seq![c] + t0.subrange(k + 1, n as int)).drop_first() =~= t0.subrange(k + 1, n as int));
            }
            let id = self.add_type(c);
            proof {
                assert forall|m: int| 0 <= m < ids@.len() + 1 implies self.holds(#[trigger] ids@.push(id)[m]) && self.ty(ids@.push(id)[m]) == t0[m]
                    && ids@.push(id)[m].0 == mid.next_id() + m by {
                    if m < ids@.len() {
                        self.lemma_grows_keeps(&prev, ids@[m]);
                    }
                }
            }
            ids.push(id);
        }
        let ghost idv = ids;
        let ghost pre_union = *self;
        let u = self.add_type(CType::Union(ids));
        proof {
            assert(self.ty(u) == CType::Union(idv));
            assert forall|m: int| 0 <= m < idv@.len() implies self.holds(#[trigger] idv@[m]) && self.ty(idv@[m]) == t0[m] by {
                self.lemma_grows_keeps(&pre_union, idv@[m]);
            }
            assert forall|m: int| 0 <= m < idv@.len() implies self.holds(#[trigger] idv@[m]) && is_candidate(self.ty(idv@[m])) by {
                self.lemma_grows_keeps(&pre_union, idv@[m]);
            }
            lemma_candidates_keeps(&mid, self, nd, t0);
            assert(built_from(self, u, t0));
        }
        u
    }
}

/// The ids that lowering the first `n` nodes may use up.
pub open spec fn budget_upto(ctx: &LoweringContext, n: int) -> int
    decreases n,
{
    if n <= 0 {
        0
    } else {
        budget_upto(ctx, n - 1) + node_cost(ctx, (n - 1) as usize)
    }
}

proof fn lemma_budget_mono(ctx: &LoweringContext, i: int, j: int)
    requires
        0 <= i <= j,
    ensures
        budget_upto(ctx, i) <= budget_upto(ctx, j),
    decreases j - i,
{
    if i < j {
        lemma_budget_mono(ctx, i, j - 1);
    }
}

/// Lowering every node of the graph keeps type ids and return-field offsets
/// within `usize`.
pub open spec fn lowering_fits(ctx: &LoweringContext) -> bool {
    &&& ctx.first() + budget_upto(ctx, ctx.graph().nodes@.len() as int) <= usize::MAX
    &&& forall|nd: usize| nd < ctx.graph().nodes@.len() ==> offset_sum(#[trigger] out_locs_of(ctx.out_params_view(), nd), out_locs_of(ctx.out_params_view(), nd).len() as int) <= usize::MAX
}

/// The type with id `id` in a list numbered from `first`.
pub open spec fn type_at(ts: Seq<(TypeId, CType)>, first: usize, id: TypeId) -> CType {
    ts[id.0 - first].1
}

/// `id` is a type of the list, and it is what lowering `nd` promises.
pub open spec fn node_lowered(g: &SketchGraph, ts: Seq<(TypeId, CType)>, first: usize, nd: usize, id: TypeId) -> bool {
    &&& first <= id.0 < first + ts.len()
    &&& !g.has_out_edge(nd) ==> is_primitive_named(type_at(ts, first, id), g.nodes@[nd as int].upper@)
    &&& g.has_out_edge(nd) ==> match type_at(ts, first, id) {
        CType::Union(ids) => ids@.len() != 1 && forall|m: int| 0 <= m < ids@.len() ==> first <= (#[trigger] ids@[m]).0 < first + ts.len() && is_candidate(type_at(ts, first, ids@[m])),
        c => is_candidate(c),
    }
}

/// `id` is what lowering `nd` promises, in the types of `ctx`.
pub open spec fn node_typed(ctx: &LoweringContext, nd: usize, id: TypeId) -> bool {
    &&& ctx.holds(id)
    &&& !ctx.graph().has_out_edge(nd) ==> is_primitive_named(ctx.ty(id), ctx.graph().nodes@[nd as int].upper@)
    &&& ctx.graph().has_out_edge(nd) ==> match ctx.ty(id) {
        CType::Union(ids) => ids@.len() != 1 && forall|m: int| 0 <= m < ids@.len() ==> ctx.holds(#[trigger] ids@[m]) && is_candidate(ctx.ty(ids@[m])),
        c => is_candidate(c),
    }    &&& ctx.graph().has_out_edge(nd) ==> exists|cands: Seq<CType>| #[trigger] candidates_of(ctx, nd, cands)
        && alias_structure_exclusive(cands) && built_from(ctx, id, cands)
}

proof fn lemma_built_from_keeps(prev: &LoweringContext, cur: &LoweringContext, id: TypeId, cands: Seq<CType>)
    requires
        prev.wf(),
        cur.wf(),
        cur.grows_from(prev),
        prev.holds(id),
        built_from(prev, id, cands),
    ensures
        built_from(cur, id, cands),
{
    cur.lemma_grows_keeps(prev, id);
    if cands.len() != 1 {
        let ids = prev.ty(id)->Union_0;
        assert forall|m: int| 0 <= m < ids@.len() implies cur.holds(#[trigger] ids@[m]) && cur.ty(ids@[m]) == cands[m] by {
            cur.lemma_grows_keeps(prev, ids@[m]);
        }
    }
}

proof fn lemma_node_typed_keeps(prev: &LoweringContext, cur: &LoweringContext, nd: usize, id: TypeId)
    requires
        prev.wf(),
        cur.wf(),
        cur.grows_from(prev),
        node_typed(prev, nd, id),
    ensures
        node_typed(cur, nd, id),
{
    cur.lemma_grows_keeps(prev, id);
    if prev.graph().has_out_edge(nd) {
        let cands = choose|cands: Seq<CType>| #[trigger] candidates_of(prev, nd, cands)
            && alias_structure_exclusive(cands) && built_from(prev, id, cands);
        lemma_candidates_keeps(prev, cur, nd, cands);
        lemma_built_from_keeps(prev, cur, id, cands);
        if let CType::Union(ids) = prev.ty(id) {
            assert forall|m: int| 0 <= m < ids@.len() implies cur.holds(#[trigger] ids@[m]) && is_candidate(cur.ty(ids@[m])) by {
                cur.lemma_grows_keeps(prev, ids@[m]);
            }
        }
    }
}

/// The types numbered from `first` on, in order.
fn number_types(first: usize, types: Vec<CType>) -> (r: Vec<(TypeId, CType)>)
    requires
        first + types@.len() <= usize::MAX,
    ensures
        r@.len() == types@.len(),
        forall|i: int| 0 <= i < r@.len() ==> (#[trigger] r@[i]).0 == TypeId((first + i) as usize) && r@[i].1 == types@[i],
{
    let ghost t0 = types@;
    let mut types = types;
    let mut rev = reversed(types);
    assert(rev@.reverse() =~= t0);
    let mut r: Vec<(TypeId, CType)> = Vec::new();
    let mut i: usize = 0;
    while rev.len() > 0
        invariant
            first + t0.len() <= usize::MAX,
            i == r@.len(),
            i + rev@.len() == t0.len(),
            rev@.reverse() == t0.subrange(i as int, t0.len() as int),
            forall|k: int| 0 <= k < i ==> (#[trigger] r@[k]).0 == TypeId((first + k) as usize) && r@[k].1 == t0[k],
        decreases rev@.len(),
    {
        let ghost before = rev@;
        let c = rev.pop().unwrap();
        assert(before =~= rev@.push(c));
        assert(before.reverse() =~= seq![c] + rev@.reverse());
        assert(t0.subrange(i as int, t0.len() as int) =~= seq![c] + t0.subrange(i + 1, t0.len() as int));
        assert((seq![c] + rev@.reverse()).drop_first() =~= rev@.reverse());
        assert((seq![c] + t0.subrange(i + 1, t0.len() as int)).drop_first() =~= t0.subrange(i + 1, t0.len() as int));
        assert(rev@.reverse() =~= t0.subrange(i + 1, t0.len() as int));
        assert(t0.subrange(i as int, t0.len() as int)[0] == t0[i as int]);
        assert((seq![c] + t0.subrange(i + 1, t0.len() as int))[0] == c);
        assert(t0[i as int] == c);
        r.push((TypeId(first + i), c));
        i = i + 1;
    }
    r
}

impl<'a> LoweringContext<'a> {
    /// Lowers every node of the graph. The result gives, for each node by its
    /// index, its type id, and the types made, each with its id, numbered from
    /// `first()` on. It fails with `Overflow` exactly when ids or return-field
    /// offsets would not fit in a `usize`.
    /// A context over the same graph, out-parameters and default bounds
    /// whose types are those of `ts`, numbered from `first()` on.
    pub closed spec fn with_types(&self, ts: Seq<(TypeId, CType)>) -> LoweringContext<'a> {
        choose|c: LoweringContext<'a>| c.wf() && c.graph() == self.graph() && c.out_params_view() == self.out_params_view()
            && c.default_upper() == self.default_upper() && c.first() == self.first()
            && c.types() == ts.map_values(|p: (TypeId, CType)| p.1) && c.next_id() == self.first() + ts.len()
    }

    pub fn collect_ctypes(self) -> (r: Result<(Vec<TypeId>, Vec<(TypeId, CType)>), LoweringError>)
        requires
            self.wf(),
            self.types().len() == 0,
        ensures
            (r is Ok) == lowering_fits(&self),
            r is Err ==> r->Err_0 == LoweringError::Overflow,
            r is Ok ==> {
                let (m, ts) = r.unwrap();
                &&& m@.len() == self.graph().nodes@.len()
                &&& forall|i: int| 0 <= i < ts@.len() ==> (#[trigger] ts@[i]).0 == TypeId((self.first() + i) as usize)
                &&& forall|nd: int| 0 <= nd < m@.len() ==> node_lowered(self.graph(), ts@, self.first(), nd as usize, #[trigger] m@[nd])
                &&& self.first() + ts@.len() <= usize::MAX
                &&& forall|nd: int| 0 <= nd < m@.len() ==> node_typed(&self.with_types(ts@), nd as usize, #[trigger] m@[nd])
            },
    {
        let ghost orig = self;
        let mut s = self;
        let n = s.grph.nodes.len();
        let e = s.grph.edges.len();
        let mut total: u128 = 0;
        let mut nd: usize = 0;
        while nd < n
            invariant
                s == orig,
                orig == self,
                n == orig.graph().nodes@.len(),
                e == orig.graph().edges@.len(),
                nd <= n,
                total == budget_upto(&orig, nd as int),
                total <= usize::MAX,
                forall|k: usize| k < nd ==> offset_sum(#[trigger] out_locs_of(orig.out_params_view(), k), out_locs_of(orig.out_params_view(), k).len() as int) <= usize::MAX,
            decreases n - nd,
        {
            let locs = s.out_locs(nd);
            if !return_offsets_fit(&locs) {
                assert(offset_sum(out_locs_of(orig.out_params_view(), nd), out_locs_of(orig.out_params_view(), nd).len() as int) > usize::MAX);
                assert(!lowering_fits(&orig));
                return Err(LoweringError::Overflow);
            }
            total = total + 9 * (e as u128) + (locs.len() as u128) + 4;
            if total > usize::MAX as u128 {
                proof {
                    lemma_budget_mono(&orig, nd + 1, n as int);
                }
                assert(!lowering_fits(&orig));
                return Err(LoweringError::Overflow);
            }
            nd = nd + 1;
        }
        if total + s.first_id as u128 > usize::MAX as u128 {
            return Err(LoweringError::Overflow);
        }
        let mut m: Vec<TypeId> = Vec::new();
        let mut nd: usize = 0;
        while nd < n
            invariant
                s.wf(),
                s.grows_from(&orig),
                orig.wf(),
                n == orig.graph().nodes@.len(),
                nd <= n,
                orig.first() + budget_upto(&orig, n as int) <= usize::MAX,
                s.next_id() <= orig.first() + budget_upto(&orig, nd as int),
                forall|k: usize| k < n ==> offset_sum(#[trigger] out_locs_of(orig.out_params_view(), k), out_locs_of(orig.out_params_view(), k).len() as int) <= usize::MAX,
                m@.len() == nd,
                forall|k: int| 0 <= k < nd ==> node_typed(&s, k as usize, #[trigger] m@[k]),
            decreases n - nd,
        {
            proof {
                lemma_budget_mono(&orig, nd + 1, n as int);
                assert(node_cost(&s, nd) == node_cost(&orig, nd));
            }
            let ghost prev = s;
            let id = s.build_type(nd);
            proof {
                assert forall|k: int| 0 <= k < nd + 1 implies node_typed(&s, k as usize, #[trigger] m@.push(id)[k]) by {
                    if k < nd {
                        lemma_node_typed_keeps(&prev, &s, k as usize, m@[k]);
                    }
                }
            }
            m.push(id);
            nd = nd + 1;
        }
        let first = s.first_id;
        let ghost fin = s;
        let ts = number_types(first, s.ephemeral_types);
        proof {
            assert(ts@.map_values(|p: (TypeId, CType)| p.1) =~= fin.types());
            let c = orig.with_types(ts@);
            assert(c.wf() && c.graph() == fin.graph() && c.out_params_view() == fin.out_params_view()
                && c.default_upper() == fin.default_upper() && c.first() == fin.first()
                && c.types() == fin.types() && c.next_id() == fin.next_id());
            assert(c.grows_from(&fin));
            assert forall|k: int| 0 <= k < m@.len() implies node_typed(&c, k as usize, #[trigger] m@[k]) by {
                lemma_node_typed_keeps(&fin, &c, k as usize, m@[k]);
            }
            assert forall|k: int| 0 <= k < m@.len() implies node_lowered(orig.graph(), ts@, first, k as usize, #[trigger] m@[k]) by {
                assert(node_typed(&fin, k as usize, m@[k]));
                if orig.graph().has_out_edge(k as usize) {
                    if let CType::Union(ids) = fin.ty(m@[k]) {
                        assert forall|q: int| 0 <= q < ids@.len() implies first <= (#[trigger] ids@[q]).0 < first + ts@.len() && is_candidate(type_at(ts@, first, ids@[q])) by {
                            assert(fin.holds(ids@[q]));
                        }
                    }
                }
            }
        }
        Ok((m, ts))
    }
}

} // verus!
