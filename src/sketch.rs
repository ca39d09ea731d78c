//! Sketch graphs: labelled automata whose nodes carry lattice bounds.
use vstd::prelude::*;
use crate::constraints::{FieldLabel, SubtypeConstraint, TypeVariable};

verus! {

/// The index of a node in a sketch graph.
#[derive(Clone, Copy, Debug, PartialEq, Eq, Structural, PartialOrd, Ord, Hash)]
pub struct NodeIndex(pub usize);

impl NodeIndex {
    /// The position of the node.
    pub fn index(&self) -> (r: usize)
        ensures
            r == self.0,
    {
        self.0
    }
}

/// A lower and an upper bound in the lattice of primitive type names.
#[derive(Clone, Debug)]
pub struct LatticeBounds {
    pub lower: String,
    pub upper: String,
}

impl LatticeBounds {
    /// Bounds `(lower, upper)`.
    pub fn new(lower: String, upper: String) -> (r: LatticeBounds)
        ensures
            r.lower@ == lower@,
            r.upper@ == upper@,
    {
        LatticeBounds { lower, upper }
    }

    /// The upper bound.
    pub fn get_upper(&self) -> (r: &String)
        ensures
            r@ == self.upper@,
    {
        &self.upper
    }

    /// The lower bound.
    pub fn get_lower(&self) -> (r: &String)
        ensures
            r@ == self.lower@,
    {
        &self.lower
    }

    /// A copy of these bounds.
    pub fn duplicate(&self) -> (r: LatticeBounds)
        ensures
            r.lower@ == self.lower@,
            r.upper@ == self.upper@,
    {
        LatticeBounds { lower: self.lower.clone(), upper: self.upper.clone() }
    }
}

/// A labelled edge between two nodes.
#[derive(Clone, Copy, Debug, PartialEq, Eq, Structural)]
pub struct SketchEdge {
    pub src: usize,
    pub dst: usize,
    pub label: FieldLabel,
}

/// A sketch graph held as an arena: nodes by position, edges as triples.
#[derive(Clone, Debug)]
pub struct SketchGraph {
    pub nodes: Vec<LatticeBounds>,
    pub edges: Vec<SketchEdge>,
}

impl SketchGraph {
    /// Every edge joins two nodes of the graph.
    pub open spec fn wf(&self) -> bool {
        forall|i: int|
            0 <= i < self.edges@.len() ==> (#[trigger] self.edges@[i]).src < self.nodes@.len()
                && self.edges@[i].dst < self.nodes@.len()
    }

    /// The graph with no nodes and no edges.
    pub fn new() -> (r: SketchGraph)
        ensures
            r.wf(),
            r.nodes@.len() == 0,
            r.edges@.len() == 0,
    {
        SketchGraph { nodes: Vec::new(), edges: Vec::new() }
    }

    /// Adds a node with the given bounds and returns its index.
    pub fn add_node(&mut self, bounds: LatticeBounds) -> (r: NodeIndex)
        requires
            old(self).wf(),
        ensures
            final(self).wf(),
            r.0 == old(self).nodes@.len(),
            final(self).nodes@ == old(self).nodes@.push(bounds),
            final(self).edges@ == old(self).edges@,
    {
        let r = NodeIndex(self.nodes.len());
        self.nodes.push(bounds);
        r
    }

    /// Adds an edge from `src` to `dst` with the given label.
    pub fn add_edge(&mut self, src: NodeIndex, dst: NodeIndex, label: FieldLabel)
        requires
            old(self).wf(),
            src.0 < old(self).nodes@.len(),
            dst.0 < old(self).nodes@.len(),
        ensures
            final(self).wf(),
            final(self).nodes@ == old(self).nodes@,
            final(self).edges@ == old(self).edges@.push(SketchEdge { src: src.0, dst: dst.0, label }),
    {
        self.edges.push(SketchEdge { src: src.0, dst: dst.0, label });
    }

    /// Whether `nd` has an outgoing edge.
    pub open spec fn has_out_edge(&self, nd: usize) -> bool {
        exists|i: int| 0 <= i < self.edges@.len() && (#[trigger] self.edges@[i]).src == nd
    }
}

/// There is an edge from `n` to `m` labelled `l`.
pub open spec fn has_edge(g: &SketchGraph, n: usize, l: FieldLabel, m: usize) -> bool {
    exists|i: int| 0 <= i < g.edges@.len() && #[trigger] g.edges@[i] == (SketchEdge { src: n, dst: m, label: l })
}

/// Following the labels of `path` from `n` leads to `m`.
pub open spec fn reaches(g: &SketchGraph, n: usize, path: Seq<FieldLabel>, m: usize) -> bool
    decreases path.len(),
{
    if path.len() == 0 {
        n == m
    } else {
        exists|k: usize| reaches(g, n, path.drop_last(), k) && #[trigger] has_edge(g, k, path.last(), m)
    }
}

/// Node `k` is reached from `n` by some prefix of `path` of length at most `i`.
pub open spec fn on_prefix(g: &SketchGraph, n: usize, path: Seq<FieldLabel>, i: int, k: usize) -> bool {
    exists|j: int| 0 <= j <= i && #[trigger] reaches(g, n, path.take(j), k)
}

/// Node `k` is reached from `n` by some prefix of `path`.
pub open spec fn on_path(g: &SketchGraph, n: usize, path: Seq<FieldLabel>, k: usize) -> bool {
    on_prefix(g, n, path, path.len() as int, k)
}

/// No node has two outgoing edges with the same label.
pub open spec fn deterministic(g: &SketchGraph) -> bool {
    forall|i: int, j: int|
        0 <= i < g.edges@.len() && 0 <= j < g.edges@.len() && (#[trigger] g.edges@[i]).src == (#[trigger] g.edges@[j]).src
            && g.edges@[i].label == g.edges@[j].label ==> i == j
}

/// `g2` holds the nodes and edges of `g` and maybe more after them.
pub open spec fn extends(g: &SketchGraph, g2: &SketchGraph) -> bool {
    &&& g.nodes@.len() <= g2.nodes@.len()
    &&& g.edges@.is_prefix_of(g2.edges@)
}

proof fn lemma_reaches_extends(g: &SketchGraph, g2: &SketchGraph, n: usize, path: Seq<FieldLabel>, m: usize)
    requires
        extends(g, g2),
        reaches(g, n, path, m),
    ensures
        reaches(g2, n, path, m),
    decreases path.len(),
{
    if path.len() > 0 {
        let k = choose|k: usize| reaches(g, n, path.drop_last(), k) && #[trigger] has_edge(g, k, path.last(), m);
        lemma_reaches_extends(g, g2, n, path.drop_last(), k);
        let i = choose|i: int| 0 <= i < g.edges@.len() && #[trigger] g.edges@[i] == (SketchEdge { src: k, dst: m, label: path.last() });
        assert(g2.edges@[i] == g.edges@[i]);
        assert(has_edge(g2, k, path.last(), m));
    }
}

impl SketchGraph {
    /// The target of the edge out of `n` labelled `l`, if there is one.
    pub fn child(&self, n: usize, l: FieldLabel) -> (r: Option<usize>)
        ensures
            r is Some ==> has_edge(self, n, l, r->Some_0),
            r is None ==> forall|m: usize| !has_edge(self, n, l, m),
    {
        let mut i: usize = 0;
        while i < self.edges.len()
            invariant
                i <= self.edges@.len(),
                forall|k: int| 0 <= k < i ==> !((#[trigger] self.edges@[k]).src == n && self.edges@[k].label == l),
            decreases self.edges@.len() - i,
        {
            let e = self.edges[i];
            if e.src == n && e.label == l {
                assert(self.edges@[i as int] == (SketchEdge { src: n, dst: e.dst, label: l }));
                return Some(e.dst);
            }
            i = i + 1;
        }
        None
    }

    /// Follows `path` from `root`, adding a node with bounds `bounds` and an
    /// edge wherever the path leaves the graph; returns where it ends.
    pub fn add_path(&mut self, root: usize, path: &Vec<FieldLabel>, bounds: &LatticeBounds) -> (r: usize)
        requires
            old(self).wf(),
            deterministic(old(self)),
            root < old(self).nodes@.len(),
        ensures
            final(self).wf(),
            deterministic(final(self)),
            extends(old(self), final(self)),
            r < final(self).nodes@.len(),
            reaches(final(self), root, path@, r),
            forall|k: int| old(self).nodes@.len() <= k < final(self).nodes@.len() ==> (#[trigger] final(self).nodes@[k]).upper@ == bounds.upper@
                && final(self).nodes@[k].lower@ == bounds.lower@,
            forall|k: int| 0 <= k < old(self).nodes@.len() ==> #[trigger] final(self).nodes@[k] == old(self).nodes@[k],
            forall|k: usize| old(self).nodes@.len() <= k < final(self).nodes@.len() ==> #[trigger] on_path(final(self), root, path@, k),
    {
        let mut cur = root;
        let mut i: usize = 0;
        assert(reaches(self, root, path@.take(0), root));
        while i < path.len()
            invariant
                i <= path@.len(),
                self.wf(),
                deterministic(self),
                extends(old(self), self),
                cur < self.nodes@.len(),
                reaches(self, root, path@.take(i as int), cur),
                forall|k: int| old(self).nodes@.len() <= k < self.nodes@.len() ==> (#[trigger] self.nodes@[k]).upper@ == bounds.upper@
                    && self.nodes@[k].lower@ == bounds.lower@,
                forall|k: int| 0 <= k < old(self).nodes@.len() ==> #[trigger] self.nodes@[k] == old(self).nodes@[k],
                forall|k: usize| old(self).nodes@.len() <= k < self.nodes@.len() ==> #[trigger] on_prefix(self, root, path@, i as int, k),
            decreases path@.len() - i,
        {
            let l = path[i];
            let ghost before = *self;
            assert(path@.take(i + 1).drop_last() =~= path@.take(i as int));
            assert(path@.take(i + 1).last() == l);
            match self.child(cur, l) {
                Some(nxt) => {
                    proof {
                        let e = choose|e: int| 0 <= e < self.edges@.len() && #[trigger] self.edges@[e] == (SketchEdge { src: cur, dst: nxt, label: l });
                        assert(self.edges@[e].dst < self.nodes@.len());
                        assert(reaches(self, root, path@.take(i + 1).drop_last(), cur));
                        assert(has_edge(self, cur, path@.take(i + 1).last(), nxt));
                        assert(reaches(self, root, path@.take(i + 1), nxt));
                        assert forall|k: usize| old(self).nodes@.len() <= k < self.nodes@.len() implies #[trigger] on_prefix(self, root, path@, i + 1, k) by {
                            assert(on_prefix(self, root, path@, i as int, k));
                            let j = choose|j: int| 0 <= j <= i && #[trigger] reaches(self, root, path@.take(j), k);
                        }
                    }
                    cur = nxt;
                },
                None => {
                    let nd = self.add_node(bounds.duplicate());
                    self.add_edge(NodeIndex(cur), nd, l);
                    proof {
                        assert(extends(&before, self));
                        lemma_reaches_extends(&before, self, root, path@.take(i as int), cur);
                        let last = self.edges@.len() - 1;
                        assert(self.edges@[last] == (SketchEdge { src: cur, dst: nd.0, label: l }));
                        assert(has_edge(self, cur, l, nd.0));
                        assert(reaches(self, root, path@.take(i + 1).drop_last(), cur));
                        assert(has_edge(self, cur, path@.take(i + 1).last(), nd.0));
                        assert(reaches(self, root, path@.take(i + 1), nd.0));
                        assert forall|k: usize| old(self).nodes@.len() <= k < self.nodes@.len() implies #[trigger] on_prefix(self, root, path@, i + 1, k) by {
                            if k < before.nodes@.len() {
                                assert(on_prefix(&before, root, path@, i as int, k));
                                let j = choose|j: int| 0 <= j <= i && #[trigger] reaches(&before, root, path@.take(j), k);
                                lemma_reaches_extends(&before, self, root, path@.take(j), k);
                            } else {
                                assert(k == nd.0);
                                assert(reaches(self, root, path@.take(i + 1), k));
                            }
                        }
                        assert forall|a: int, b: int|
                            0 <= a < self.edges@.len() && 0 <= b < self.edges@.len() && (#[trigger] self.edges@[a]).src == (#[trigger] self.edges@[b]).src
                                && self.edges@[a].label == self.edges@[b].label implies a == b by {
                            if a == last && b != last {
                                assert(self.edges@[b] == before.edges@[b]);
                                assert(has_edge(&before, cur, l, before.edges@[b].dst));
                            } else if b == last && a != last {
                                assert(self.edges@[a] == before.edges@[a]);
                                assert(has_edge(&before, cur, l, before.edges@[a].dst));
                            } else if a != last && b != last {
                                assert(self.edges@[a] == before.edges@[a]);
                                assert(self.edges@[b] == before.edges@[b]);
                            }
                        }
                    }
                    cur = nd.0;
                },
            }
            i = i + 1;
        }
        assert(path@.take(i as int) =~= path@);
        cur
    }
}

/// Node `k` lies on the path of a side, with base `root`, of one of the
/// first `upto` constraints.
pub open spec fn on_constraint_path(g: &SketchGraph, root: Seq<char>, cons: Seq<SubtypeConstraint>, upto: int, k: usize) -> bool {
    exists|i: int| #![trigger cons[i]] 0 <= i < upto && ((cons[i].lhs@.base == root && on_path(g, 0, cons[i].lhs@.path, k))
        || (cons[i].rhs@.base == root && on_path(g, 0, cons[i].rhs@.path, k)))
}

proof fn lemma_on_constraint_path_extends(g: &SketchGraph, g2: &SketchGraph, root: Seq<char>, cons: Seq<SubtypeConstraint>, upto: int, k: usize)
    requires
        extends(g, g2),
        on_constraint_path(g, root, cons, upto, k),
    ensures
        on_constraint_path(g2, root, cons, upto, k),
{
    let q = choose|q: int| #![trigger cons[q]] 0 <= q < upto && ((cons[q].lhs@.base == root && on_path(g, 0, cons[q].lhs@.path, k))
        || (cons[q].rhs@.base == root && on_path(g, 0, cons[q].rhs@.path, k)));
    if cons[q].lhs@.base == root && on_path(g, 0, cons[q].lhs@.path, k) {
        lemma_on_path_extends(g, g2, cons[q].lhs@.path, k);
    } else {
        lemma_on_path_extends(g, g2, cons[q].rhs@.path, k);
    }
}

proof fn lemma_on_constraint_path_grow(g: &SketchGraph, root: Seq<char>, cons: Seq<SubtypeConstraint>, upto: int, k: usize)
    requires
        on_constraint_path(g, root, cons, upto, k),
    ensures
        on_constraint_path(g, root, cons, upto + 1, k),
{
    let q = choose|q: int| #![trigger cons[q]] 0 <= q < upto && ((cons[q].lhs@.base == root && on_path(g, 0, cons[q].lhs@.path, k))
        || (cons[q].rhs@.base == root && on_path(g, 0, cons[q].rhs@.path, k)));
}

proof fn lemma_on_path_extends(g: &SketchGraph, g2: &SketchGraph, path: Seq<FieldLabel>, k: usize)
    requires
        extends(g, g2),
        on_path(g, 0, path, k),
    ensures
        on_path(g2, 0, path, k),
{
    let j = choose|j: int| 0 <= j <= path.len() && #[trigger] reaches(g, 0, path.take(j), k);
    lemma_reaches_extends(g, g2, 0, path.take(j), k);
}

/// The sketch of `root` from a set of constraints: a root node, and for each
/// side of a constraint whose base is `root`, the path of that side spelled
/// out from the root, sharing common prefixes. Every node carries `bounds`.
pub fn build_sketch(root: &TypeVariable, cons: &Vec<SubtypeConstraint>, bounds: &LatticeBounds) -> (r: SketchGraph)
    ensures
        r.wf(),
        deterministic(&r),
        r.nodes@.len() >= 1,
        forall|k: int| 0 <= k < r.nodes@.len() ==> (#[trigger] r.nodes@[k]).upper@ == bounds.upper@ && r.nodes@[k].lower@ == bounds.lower@,
        forall|i: int| 0 <= i < cons@.len() ==> ((#[trigger] cons@[i]).lhs@.base == root@ ==> exists|m: usize| reaches(&r, 0, cons@[i].lhs@.path, m)),
        forall|i: int| 0 <= i < cons@.len() ==> ((#[trigger] cons@[i]).rhs@.base == root@ ==> exists|m: usize| reaches(&r, 0, cons@[i].rhs@.path, m)),
        forall|k: usize| 1 <= k < r.nodes@.len() ==> #[trigger] on_constraint_path(&r, root@, cons@, cons@.len() as int, k),
{
    let mut g = SketchGraph::new();
    g.add_node(bounds.duplicate());
    let mut i: usize = 0;
    while i < cons.len()
        invariant
            i <= cons@.len(),
            g.wf(),
            deterministic(&g),
            g.nodes@.len() >= 1,
            forall|k: int| 0 <= k < g.nodes@.len() ==> (#[trigger] g.nodes@[k]).upper@ == bounds.upper@ && g.nodes@[k].lower@ == bounds.lower@,
            forall|j: int| 0 <= j < i ==> ((#[trigger] cons@[j]).lhs@.base == root@ ==> exists|m: usize| reaches(&g, 0, cons@[j].lhs@.path, m)),
            forall|j: int| 0 <= j < i ==> ((#[trigger] cons@[j]).rhs@.base == root@ ==> exists|m: usize| reaches(&g, 0, cons@[j].rhs@.path, m)),
            forall|k: usize| 1 <= k < g.nodes@.len() ==> #[trigger] on_constraint_path(&g, root@, cons@, i as int, k),
        decreases cons@.len() - i,
    {
        let c = &cons[i];
        let ghost g0 = g;
        let ghost lhs_taken = c.lhs@.base == root@;
        let ghost rhs_taken = c.rhs@.base == root@;
        if c.lhs.var == *root {
            let r1 = g.add_path(0, &c.lhs.labels, bounds);
            assert(reaches(&g, 0, cons@[i as int].lhs@.path, r1));
        }
        let ghost g1 = g;
        if c.rhs.var == *root {
            let r2 = g.add_path(0, &c.rhs.labels, bounds);
            assert(reaches(&g, 0, cons@[i as int].rhs@.path, r2));
        }
        proof {
            assert(extends(&g0, &g1));
            assert(extends(&g1, &g));
            assert(extends(&g0, &g));
            assert forall|k: usize| 1 <= k < g.nodes@.len() implies #[trigger] on_constraint_path(&g, root@, cons@, i + 1, k) by {
                if k < g0.nodes@.len() {
                    lemma_on_constraint_path_extends(&g0, &g, root@, cons@, i as int, k);
                    lemma_on_constraint_path_grow(&g, root@, cons@, i as int, k);
                } else if k < g1.nodes@.len() {
                    assert(lhs_taken);
                    assert(on_path(&g1, 0, cons@[i as int].lhs@.path, k));
                    lemma_on_path_extends(&g1, &g, cons@[i as int].lhs@.path, k);
                    assert(on_path(&g, 0, cons@[i as int].lhs@.path, k));
                    assert(cons@[i as int] == cons@[i as int]);
                    assert(on_constraint_path(&g, root@, cons@, i + 1, k));
                } else {
                    assert(rhs_taken);
                    assert(on_path(&g, 0, cons@[i as int].rhs@.path, k));
                    assert(cons@[i as int] == cons@[i as int]);
                    assert(on_constraint_path(&g, root@, cons@, i + 1, k));
                }
            }
            assert forall|j: int| 0 <= j < i + 1 implies ((#[trigger] cons@[j]).lhs@.base == root@ ==> exists|m: usize| reaches(&g, 0, cons@[j].lhs@.path, m)) by {
                if j < i && cons@[j].lhs@.base == root@ {
                    let m = choose|m: usize| reaches(&g0, 0, cons@[j].lhs@.path, m);
                    lemma_reaches_extends(&g0, &g, 0, cons@[j].lhs@.path, m);
                } else if j == i && cons@[j].lhs@.base == root@ {
                    let m = choose|m: usize| reaches(&g1, 0, cons@[j].lhs@.path, m);
                    lemma_reaches_extends(&g1, &g, 0, cons@[j].lhs@.path, m);
                }
            }
            assert forall|j: int| 0 <= j < i + 1 implies ((#[trigger] cons@[j]).rhs@.base == root@ ==> exists|m: usize| reaches(&g, 0, cons@[j].rhs@.path, m)) by {
                if j < i && cons@[j].rhs@.base == root@ {
                    let m = choose|m: usize| reaches(&g0, 0, cons@[j].rhs@.path, m);
                    lemma_reaches_extends(&g0, &g, 0, cons@[j].rhs@.path, m);
                }
            }
        }
        i = i + 1;
    }
    g
}

proof fn lemma_reaches_unique(g: &SketchGraph, n: usize, path: Seq<FieldLabel>, m1: usize, m2: usize)
    requires
        deterministic(g),
        reaches(g, n, path, m1),
        reaches(g, n, path, m2),
    ensures
        m1 == m2,
    decreases path.len(),
{
    if path.len() > 0 {
        let k1 = choose|k: usize| reaches(g, n, path.drop_last(), k) && #[trigger] has_edge(g, k, path.last(), m1);
        let k2 = choose|k: usize| reaches(g, n, path.drop_last(), k) && #[trigger] has_edge(g, k, path.last(), m2);
        lemma_reaches_unique(g, n, path.drop_last(), k1, k2);
        let i = choose|i: int| 0 <= i < g.edges@.len() && #[trigger] g.edges@[i] == (SketchEdge { src: k1, dst: m1, label: path.last() });
        let j = choose|j: int| 0 <= j < g.edges@.len() && #[trigger] g.edges@[j] == (SketchEdge { src: k2, dst: m2, label: path.last() });
        assert(g.edges@[i].src == g.edges@[j].src);
    }
}

impl SketchGraph {
    /// The node that `path` leads to from `n`, if the graph spells it out.
    pub fn follow(&self, n: usize, path: &Vec<FieldLabel>) -> (r: Option<usize>)
        requires
            deterministic(self),
        ensures
            r is Some ==> reaches(self, n, path@, r->Some_0),
            r is None ==> forall|m: usize| !#[trigger] reaches(self, n, path@, m),
    {
        let mut cur = n;
        let mut i: usize = 0;
        assert(reaches(self, n, path@.take(0), n));
        while i < path.len()
            invariant
                deterministic(self),
                i <= path@.len(),
                reaches(self, n, path@.take(i as int), cur),
            decreases path@.len() - i,
        {
            assert(path@.take(i + 1).drop_last() =~= path@.take(i as int));
            match self.child(cur, path[i]) {
                Some(nxt) => {
                    assert(has_edge(self, cur, path@.take(i + 1).last(), nxt));
                    cur = nxt;
                },
                None => {
                    proof {
                        assert forall|m: usize| !#[trigger] reaches(self, n, path@, m) by {
                            if reaches(self, n, path@, m) {
                                lemma_reaches_prefix(self, n, path@, m, i as int + 1);
                                let k = choose|k: usize| #[trigger] reaches(self, n, path@.take(i + 1), k);
                                let c = choose|c: usize| reaches(self, n, path@.take(i + 1).drop_last(), c) && #[trigger] has_edge(self, c, path@.take(i + 1).last(), k);
                                lemma_reaches_unique(self, n, path@.take(i as int), c, cur);
                            }
                        }
                    }
                    return None;
                },
            }
            i = i + 1;
        }
        assert(path@.take(i as int) =~= path@);
        Some(cur)
    }
}

proof fn lemma_reaches_prefix(g: &SketchGraph, n: usize, path: Seq<FieldLabel>, m: usize, k: int)
    requires
        reaches(g, n, path, m),
        0 <= k <= path.len(),
    ensures
        exists|c: usize| #[trigger] reaches(g, n, path.take(k), c),
    decreases path.len() - k,
{
    if k == path.len() {
        assert(path.take(k) =~= path);
    } else {
        let c = choose|c: usize| reaches(g, n, path.drop_last(), c) && #[trigger] has_edge(g, c, path.last(), m);
        lemma_reaches_prefix(g, n, path.drop_last(), c, k);
        assert(path.drop_last().take(k) =~= path.take(k));
    }
}

/// Primitive type names in a chain, from the least to the greatest.
#[derive(Clone, Debug)]
pub struct LinearLattice {
    pub names: Vec<String>,
}

/// `k` is the first position of `s` among `names`.
pub open spec fn is_rank(names: Seq<String>, s: Seq<char>, k: int) -> bool {
    0 <= k < names.len() && names[k]@ == s && forall|j: int| 0 <= j < k ==> (#[trigger] names[j])@ != s
}

/// Constraint `i` is `c <= root.path` for a constant `c` of rank `k`, and
/// `path` leads to node `m` of the sketch.
pub open spec fn flows_in(g: &SketchGraph, root: Seq<char>, cons: Seq<SubtypeConstraint>, names: Seq<String>, i: int, m: usize, k: int) -> bool {
    0 <= i < cons.len() && cons[i].lhs@.path.len() == 0 && is_rank(names, cons[i].lhs@.base, k)
        && cons[i].rhs@.base == root && reaches(g, 0, cons[i].rhs@.path, m)
}

/// Constraint `i` is `root.path <= c` for a constant `c` of rank `k`, and
/// `path` leads to node `m` of the sketch.
pub open spec fn flows_out(g: &SketchGraph, root: Seq<char>, cons: Seq<SubtypeConstraint>, names: Seq<String>, i: int, m: usize, k: int) -> bool {
    0 <= i < cons.len() && cons[i].rhs@.path.len() == 0 && is_rank(names, cons[i].rhs@.base, k)
        && cons[i].lhs@.base == root && reaches(g, 0, cons[i].lhs@.path, m)
}

impl LinearLattice {
    /// The first position of `name` in the chain, if it is there.
    pub fn rank(&self, name: &String) -> (r: Option<usize>)
        ensures
            r is Some ==> is_rank(self.names@, name@, r->Some_0 as int),
            r is None ==> forall|j: int| 0 <= j < self.names@.len() ==> (#[trigger] self.names@[j])@ != name@,
    {
        let mut i: usize = 0;
        while i < self.names.len()
            invariant
                i <= self.names@.len(),
                forall|j: int| 0 <= j < i ==> (#[trigger] self.names@[j])@ != name@,
            decreases self.names@.len() - i,
        {
            if self.names[i] == *name {
                return Some(i);
            }
            i = i + 1;
        }
        None
    }
}

proof fn lemma_rank_unique(names: Seq<String>, s: Seq<char>, k1: int, k2: int)
    requires
        is_rank(names, s, k1),
        is_rank(names, s, k2),
    ensures
        k1 == k2,
{
    if k1 < k2 {
        assert(names[k1]@ != s);
    } else if k2 < k1 {
        assert(names[k2]@ != s);
    }
}

/// The lattice bounds of the nodes of the sketch of `root`, as ranks in the
/// chain: each lower bound is the join of the bottom and of the constants
/// that flow into the node, each upper bound the meet of the top and of the
/// constants the node flows into. A node whose lower bound exceeds its upper
/// bound holds contradictory constraints.
pub fn lattice_bounds(g: &SketchGraph, root: &TypeVariable, cons: &Vec<SubtypeConstraint>, lat: &LinearLattice) -> (r: Vec<(usize, usize)>)
    requires
        deterministic(g),
        lat.names@.len() > 0,
    ensures
        r@.len() == g.nodes@.len(),
        forall|i: int, m: usize, k: int| #[trigger] flows_in(g, root@, cons@, lat.names@, i, m, k) && m < g.nodes@.len() ==> r@[m as int].0 >= k,
        forall|m: int| 0 <= m < r@.len() ==> (#[trigger] r@[m]).0 == 0 || exists|i: int| #[trigger] flows_in(g, root@, cons@, lat.names@, i, m as usize, r@[m].0 as int),
        forall|i: int, m: usize, k: int| #[trigger] flows_out(g, root@, cons@, lat.names@, i, m, k) && m < g.nodes@.len() ==> r@[m as int].1 <= k,
        forall|m: int| 0 <= m < r@.len() ==> (#[trigger] r@[m]).1 == lat.names@.len() - 1 || exists|i: int| #[trigger] flows_out(g, root@, cons@, lat.names@, i, m as usize, r@[m].1 as int),
{
    let top = lat.names.len() - 1;
    let n = g.nodes.len();
    let mut r: Vec<(usize, usize)> = Vec::new();
    let mut q: usize = 0;
    while q < n
        invariant
            q <= n,
            r@.len() == q,
            forall|m: int| 0 <= m < q ==> #[trigger] r@[m] == (0usize, top),
        decreases n - q,
    {
        r.push((0, top));
        q = q + 1;
    }
    let mut i: usize = 0;
    while i < cons.len()
        invariant
            deterministic(g),
            n == g.nodes@.len(),
            top == lat.names@.len() - 1,
            r@.len() == n,
            i <= cons@.len(),
            forall|i2: int, m: usize, k: int| 0 <= i2 < i && #[trigger] flows_in(g, root@, cons@, lat.names@, i2, m, k) && m < n ==> r@[m as int].0 >= k,
            forall|m: int| 0 <= m < n ==> (#[trigger] r@[m]).0 == 0 || exists|i2: int| 0 <= i2 < i && #[trigger] flows_in(g, root@, cons@, lat.names@, i2, m as usize, r@[m].0 as int),
            forall|i2: int, m: usize, k: int| 0 <= i2 < i && #[trigger] flows_out(g, root@, cons@, lat.names@, i2, m, k) && m < n ==> r@[m as int].1 <= k,
            forall|m: int| 0 <= m < n ==> (#[trigger] r@[m]).1 == top || exists|i2: int| 0 <= i2 < i && #[trigger] flows_out(g, root@, cons@, lat.names@, i2, m as usize, r@[m].1 as int),
        decreases cons@.len() - i,
    {
        let c = &cons[i];
        let ghost before = r@;
        let mut in_node: Option<(usize, usize)> = None;
        if c.lhs.labels.len() == 0 && c.rhs.var == *root {
            if let Some(k) = lat.rank(&c.lhs.var.name) {
                if let Some(m) = g.follow(0, &c.rhs.labels) {
                    in_node = Some((m, k));
                }
            }
        }
        let mut out_node: Option<(usize, usize)> = None;
        if c.rhs.labels.len() == 0 && c.lhs.var == *root {
            if let Some(k) = lat.rank(&c.rhs.var.name) {
                if let Some(m) = g.follow(0, &c.lhs.labels) {
                    out_node = Some((m, k));
                }
            }
        }
        proof {
            assert forall|m: usize, k: int| #[trigger] flows_in(g, root@, cons@, lat.names@, i as int, m, k)
                implies in_node is Some && in_node->Some_0 == (m, k as usize) by {
                let mk = in_node->Some_0;
                lemma_rank_unique(lat.names@, c.lhs@.base, k, mk.1 as int);
                lemma_reaches_unique(g, 0, c.rhs@.path, m, mk.0);
            }
            assert forall|m: usize, k: int| #[trigger] flows_out(g, root@, cons@, lat.names@, i as int, m, k)
                implies out_node is Some && out_node->Some_0 == (m, k as usize) by {
                let mk = out_node->Some_0;
                lemma_rank_unique(lat.names@, c.rhs@.base, k, mk.1 as int);
                lemma_reaches_unique(g, 0, c.lhs@.path, m, mk.0);
            }
            if let Some((m, k)) = in_node {
                assert(flows_in(g, root@, cons@, lat.names@, i as int, m, k as int));
            }
            if let Some((m, k)) = out_node {
                assert(flows_out(g, root@, cons@, lat.names@, i as int, m, k as int));
            }
        }
        if let Some((m, k)) = in_node {
            if m < n && r[m].0 < k {
                let up = r[m].1;
                r.set(m, (k, up));
            }
        }
        let ghost mid = r@;
        if let Some((m, k)) = out_node {
            if m < n && r[m].1 > k {
                let lo = r[m].0;
                r.set(m, (lo, k));
            }
        }
        proof {
            assert forall|i2: int, m: usize, k: int| 0 <= i2 < i + 1 && #[trigger] flows_in(g, root@, cons@, lat.names@, i2, m, k) && m < n
                implies r@[m as int].0 >= k by {
                assert(r@[m as int].0 >= mid[m as int].0 || r@[m as int].0 == mid[m as int].0);
            }
            assert forall|m: int| 0 <= m < n implies (#[trigger] r@[m]).0 == 0 || exists|i2: int| 0 <= i2 < i + 1 && #[trigger] flows_in(g, root@, cons@, lat.names@, i2, m as usize, r@[m].0 as int) by {
                if r@[m].0 != 0 {
                    if r@[m].0 == before[m].0 {
                        let i2 = choose|i2: int| 0 <= i2 < i && #[trigger] flows_in(g, root@, cons@, lat.names@, i2, m as usize, before[m].0 as int);
                    } else {
                        assert(flows_in(g, root@, cons@, lat.names@, i as int, m as usize, r@[m].0 as int));
                    }
                }
            }
            assert forall|m: int| 0 <= m < n implies (#[trigger] r@[m]).1 == top || exists|i2: int| 0 <= i2 < i + 1 && #[trigger] flows_out(g, root@, cons@, lat.names@, i2, m as usize, r@[m].1 as int) by {
                if r@[m].1 != top {
                    if r@[m].1 == before[m].1 {
                        let i2 = choose|i2: int| 0 <= i2 < i && #[trigger] flows_out(g, root@, cons@, lat.names@, i2, m as usize, before[m].1 as int);
                    } else {
                        assert(flows_out(g, root@, cons@, lat.names@, i as int, m as usize, r@[m].1 as int));
                    }
                }
            }
        }
        i = i + 1;
    }
    r
}

} // verus!
