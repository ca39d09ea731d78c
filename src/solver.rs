//! Saturation of the ε-relation of a pushdown graph: the closure under
//! transitivity and under cancelling a push of a label with a pop of the same
//! label.
use vstd::prelude::*;
use crate::constraints::{DerivedTypeVar, DerivedTypeVarView, FieldLabel, SubtypeConstraint, TypeVariable, Variance, compose, label_variance};

verus! {

/// An edge that pushes or pops a label.
#[derive(Clone, Copy, Debug, PartialEq, Eq, Structural)]
pub struct LabelEdge {
    pub src: usize,
    pub dst: usize,
    pub label: FieldLabel,
}

/// The rows of an ε-matrix.
pub open spec fn mat(eps: Seq<Vec<bool>>) -> Seq<Seq<bool>> {
    eps.map_values(|r: Vec<bool>| r@)
}

/// `m` is an `n` by `n` matrix.
pub open spec fn square(m: Seq<Seq<bool>>, n: nat) -> bool {
    m.len() == n && forall|i: int| 0 <= i < n ==> (#[trigger] m[i]).len() == n
}

/// Every edge joins two of the `n` nodes.
pub open spec fn edges_in(es: Seq<LabelEdge>, n: nat) -> bool {
    forall|i: int| 0 <= i < es.len() ==> (#[trigger] es[i]).src < n && es[i].dst < n
}

/// `x` reaches `z` by ε-edges in `m` whenever it reaches some `y` that
/// reaches `z`.
pub open spec fn transitive(m: Seq<Seq<bool>>, n: nat) -> bool {
    forall|x: int, y: int, z: int|
        0 <= x < n && 0 <= y < n && 0 <= z < n && #[trigger] m[x][y] && #[trigger] m[y][z] ==> m[x][z]
}

/// A push of a label, then ε-edges or nothing, then a pop of the same label,
/// is matched by an ε-edge.
pub open spec fn cancels(m: Seq<Seq<bool>>, pushes: Seq<LabelEdge>, pops: Seq<LabelEdge>) -> bool {
    forall|i: int, j: int|
        0 <= i < pushes.len() && 0 <= j < pops.len() && (#[trigger] pushes[i]).label == (#[trigger] pops[j]).label
            && (pushes[i].dst == pops[j].src || m[pushes[i].dst as int][pops[j].src as int])
            ==> m[pushes[i].src as int][pops[j].dst as int]
}

/// `m2` has every ε-edge of `m`.
pub open spec fn includes(m: Seq<Seq<bool>>, m2: Seq<Seq<bool>>, n: nat) -> bool {
    forall|x: int, y: int| 0 <= x < n && 0 <= y < n && #[trigger] m[x][y] ==> m2[x][y]
}

/// The number of set entries of a row.
pub open spec fn row_count(r: Seq<bool>) -> nat
    decreases r.len(),
{
    if r.len() == 0 {
        0
    } else {
        row_count(r.drop_last()) + if r.last() { 1nat } else { 0nat }
    }
}

/// The number of set entries of a matrix.
pub open spec fn mat_count(m: Seq<Seq<bool>>) -> nat
    decreases m.len(),
{
    if m.len() == 0 {
        0
    } else {
        mat_count(m.drop_last()) + row_count(m.last())
    }
}

proof fn lemma_row_count_bound(r: Seq<bool>)
    ensures
        row_count(r) <= r.len(),
    decreases r.len(),
{
    if r.len() > 0 {
        lemma_row_count_bound(r.drop_last());
    }
}

proof fn lemma_row_count_set(r: Seq<bool>, j: int)
    requires
        0 <= j < r.len(),
        !r[j],
    ensures
        row_count(r.update(j, true)) == row_count(r) + 1,
    decreases r.len(),
{
    let r2 = r.update(j, true);
    if j == r.len() - 1 {
        assert(r2.drop_last() =~= r.drop_last());
    } else {
        lemma_row_count_set(r.drop_last(), j);
        assert(r2.drop_last() =~= r.drop_last().update(j, true));
    }
}

proof fn lemma_mat_count_bound(m: Seq<Seq<bool>>, n: nat)
    requires
        forall|i: int| 0 <= i < m.len() ==> (#[trigger] m[i]).len() == n,
    ensures
        mat_count(m) <= m.len() * n,
    decreases m.len(),
{
    if m.len() > 0 {
        lemma_mat_count_bound(m.drop_last(), n);
        lemma_row_count_bound(m.last());
        assert(mat_count(m.drop_last()) + n <= m.len() * n) by (nonlinear_arith)
            requires
                mat_count(m.drop_last()) <= (m.len() - 1) * n,
        ;
    }
}

proof fn lemma_mat_count_set(m: Seq<Seq<bool>>, i: int, j: int)
    requires
        0 <= i < m.len(),
        0 <= j < m[i].len(),
        !m[i][j],
    ensures
        mat_count(m.update(i, m[i].update(j, true))) == mat_count(m) + 1,
    decreases m.len(),
{
    let m2 = m.update(i, m[i].update(j, true));
    if i == m.len() - 1 {
        assert(m2.drop_last() =~= m.drop_last());
        lemma_row_count_set(m[i], j);
    } else {
        lemma_mat_count_set(m.drop_last(), i, j);
        assert(m2.drop_last() =~= m.drop_last().update(i, m[i].update(j, true)));
    }
}

/// The closure rules call for entry `(x, z)` given the entries of `m`: by
/// transitivity through some `y`, or by a push and a pop of one label around
/// an ε-edge or a shared node.
pub open spec fn forced(m: Seq<Seq<bool>>, n: nat, pushes: Seq<LabelEdge>, pops: Seq<LabelEdge>, x: int, z: int) -> bool {
    (exists|y: int| 0 <= y < n && #[trigger] m[x][y] && m[y][z])
    || (exists|i: int, j: int| 0 <= i < pushes.len() && 0 <= j < pops.len() && (#[trigger] pushes[i]).label == (#[trigger] pops[j]).label
        && (pushes[i].dst == pops[j].src || m[pushes[i].dst as int][pops[j].src as int])
        && pushes[i].src == x && pops[j].dst == z)
}

/// `m2` holds `m` and is closed under the rules: a candidate for the closure.
pub open spec fn closed_superset(m: Seq<Seq<bool>>, m2: Seq<Seq<bool>>, n: nat, pushes: Seq<LabelEdge>, pops: Seq<LabelEdge>) -> bool {
    square(m2, n) && includes(m, m2, n) && transitive(m2, n) && cancels(m2, pushes, pops)
}

/// An entry the closure still lacks, or none where the matrix is closed.
fn find_violation(eps: &Vec<Vec<bool>>, n: usize, pushes: &Vec<LabelEdge>, pops: &Vec<LabelEdge>) -> (r: Option<(usize, usize)>)
    requires
        square(mat(eps@), n as nat),
        edges_in(pushes@, n as nat),
        edges_in(pops@, n as nat),
    ensures
        r is None ==> transitive(mat(eps@), n as nat) && cancels(mat(eps@), pushes@, pops@),
        r is Some ==> r->Some_0.0 < n && r->Some_0.1 < n && !mat(eps@)[r->Some_0.0 as int][r->Some_0.1 as int]
            && forced(mat(eps@), n as nat, pushes@, pops@, r->Some_0.0 as int, r->Some_0.1 as int),
{
    let ghost m = mat(eps@);
    let mut x: usize = 0;
    while x < n
        invariant
            m == mat(eps@),
            square(m, n as nat),
            x <= n,
            forall|a: int, b: int, c: int| 0 <= a < x && 0 <= b < n && 0 <= c < n && #[trigger] m[a][b] && #[trigger] m[b][c] ==> m[a][c],
        decreases n - x,
    {
        let mut y: usize = 0;
        while y < n
            invariant
                m == mat(eps@),
                square(m, n as nat),
                x < n,
                y <= n,
                forall|a: int, b: int, c: int| 0 <= a < x && 0 <= b < n && 0 <= c < n && #[trigger] m[a][b] && #[trigger] m[b][c] ==> m[a][c],
                forall|b: int, c: int| 0 <= b < y && 0 <= c < n && #[trigger] m[x as int][b] && #[trigger] m[b][c] ==> m[x as int][c],
            decreases n - y,
        {
            assert(m[x as int] == eps@[x as int]@);
            assert(m[y as int] == eps@[y as int]@);
            if eps[x][y] {
                let mut z: usize = 0;
                while z < n
                    invariant
                        m == mat(eps@),
                        square(m, n as nat),
                        x < n,
                        y < n,
                        m[x as int][y as int],
                        m[x as int] == eps@[x as int]@,
                        m[y as int] == eps@[y as int]@,
                        z <= n,
                        forall|c: int| 0 <= c < z && #[trigger] m[y as int][c] ==> m[x as int][c],
                    decreases n - z,
                {
                    if eps[y][z] && !eps[x][z] {
                        assert(mat(eps@)[y as int][z as int]);
                        assert(forced(mat(eps@), n as nat, pushes@, pops@, x as int, z as int));
                        return Some((x, z));
                    }
                    z = z + 1;
                }
            }
            y = y + 1;
        }
        x = x + 1;
    }
    let mut i: usize = 0;
    while i < pushes.len()
        invariant
            m == mat(eps@),
            square(m, n as nat),
            edges_in(pushes@, n as nat),
            edges_in(pops@, n as nat),
            transitive(m, n as nat),
            i <= pushes@.len(),
            forall|a: int, b: int|
                0 <= a < i && 0 <= b < pops@.len() && (#[trigger] pushes@[a]).label == (#[trigger] pops@[b]).label
                    && (pushes@[a].dst == pops@[b].src || m[pushes@[a].dst as int][pops@[b].src as int])
                    ==> m[pushes@[a].src as int][pops@[b].dst as int],
        decreases pushes@.len() - i,
    {
        let p = pushes[i];
        let mut j: usize = 0;
        while j < pops.len()
            invariant
                m == mat(eps@),
                square(m, n as nat),
                edges_in(pushes@, n as nat),
                edges_in(pops@, n as nat),
                i < pushes@.len(),
                p == pushes@[i as int],
                j <= pops@.len(),
                forall|b: int|
                    0 <= b < j && p.label == (#[trigger] pops@[b]).label
                        && (p.dst == pops@[b].src || m[p.dst as int][pops@[b].src as int])
                        ==> m[p.src as int][pops@[b].dst as int],
            decreases pops@.len() - j,
        {
            let q = pops[j];
            assert(p.src < n && p.dst < n && q.src < n && q.dst < n);
            assert(m[p.dst as int] == eps@[p.dst as int]@);
            assert(m[p.src as int] == eps@[p.src as int]@);
            if p.label == q.label && (p.dst == q.src || eps[p.dst][q.src]) && !eps[p.src][q.dst] {
                assert(pushes@[i as int] == p && pops@[j as int] == q);
                assert(forced(mat(eps@), n as nat, pushes@, pops@, p.src as int, q.dst as int));
                return Some((p.src, q.dst));
            }
            j = j + 1;
        }
        i = i + 1;
    }
    None
}

fn set_entry(eps: &mut Vec<Vec<bool>>, x: usize, z: usize, n: usize)
    requires
        square(mat(old(eps)@), n as nat),
        x < n,
        z < n,
    ensures
        mat(final(eps)@) == mat(old(eps)@).update(x as int, mat(old(eps)@)[x as int].update(z as int, true)),
{
    assert(mat(eps@)[x as int] == eps@[x as int]@);
    let mut row = eps[x].clone();
    row.set(z, true);
    eps.set(x, row);
    assert(mat(eps@) =~= mat(old(eps)@).update(x as int, mat(old(eps)@)[x as int].update(z as int, true)));
}

/// The least extension of `eps` that is transitive and in which every push
/// of a label, followed by ε-edges or nothing and a pop of the same label,
/// is matched by an ε-edge.
pub fn saturate(eps: Vec<Vec<bool>>, n: usize, pushes: &Vec<LabelEdge>, pops: &Vec<LabelEdge>) -> (r: Vec<Vec<bool>>)
    requires
        square(mat(eps@), n as nat),
        edges_in(pushes@, n as nat),
        edges_in(pops@, n as nat),
    ensures
        square(mat(r@), n as nat),
        includes(mat(eps@), mat(r@), n as nat),
        transitive(mat(r@), n as nat),
        cancels(mat(r@), pushes@, pops@),
        forall|m2: Seq<Seq<bool>>| #[trigger] closed_superset(mat(eps@), m2, n as nat, pushes@, pops@)
            ==> includes(mat(r@), m2, n as nat),
{
    let ghost m0 = mat(eps@);
    let mut eps = eps;
    let mut done = false;
    proof {
        lemma_mat_count_bound(mat(eps@), n as nat);
    }
    while !done
        invariant
            square(mat(eps@), n as nat),
            edges_in(pushes@, n as nat),
            edges_in(pops@, n as nat),
            includes(m0, mat(eps@), n as nat),
            mat_count(mat(eps@)) <= n * n,
            done ==> transitive(mat(eps@), n as nat) && cancels(mat(eps@), pushes@, pops@),
            forall|m2: Seq<Seq<bool>>| #[trigger] closed_superset(m0, m2, n as nat, pushes@, pops@)
                ==> includes(mat(eps@), m2, n as nat),
        decreases 2 * (n * n - mat_count(mat(eps@))) + if done { 0int } else { 1int },
    {
        match find_violation(&eps, n, pushes, pops) {
            None => {
                done = true;
            },
            Some((x, z)) => {
                let ghost before = mat(eps@);
                set_entry(&mut eps, x, z, n);
                proof {
                    lemma_mat_count_set(before, x as int, z as int);
                    lemma_mat_count_bound(mat(eps@), n as nat);
                    assert forall|a: int, b: int| 0 <= a < n && 0 <= b < n && #[trigger] m0[a][b] implies mat(eps@)[a][b] by {
                        assert(before[a][b]);
                    }
                    assert forall|m2: Seq<Seq<bool>>| #[trigger] closed_superset(m0, m2, n as nat, pushes@, pops@)
                        implies includes(mat(eps@), m2, n as nat) by {
                        assert(includes(before, m2, n as nat));
                        if exists|y: int| 0 <= y < n && #[trigger] before[x as int][y] && before[y][z as int] {
                            let y = choose|y: int| 0 <= y < n && #[trigger] before[x as int][y] && before[y][z as int];
                            assert(m2[x as int][y] && m2[y][z as int]);
                        } else {
                            let (i, j) = choose|i: int, j: int| 0 <= i < pushes@.len() && 0 <= j < pops@.len() && (#[trigger] pushes@[i]).label == (#[trigger] pops@[j]).label
                                && (pushes@[i].dst == pops@[j].src || before[pushes@[i].dst as int][pops@[j].src as int])
                                && pushes@[i].src == x && pops@[j].dst == z;
                            assert(pushes@[i].src < n && pushes@[i].dst < n && pops@[j].src < n && pops@[j].dst < n);
                            if pushes@[i].dst != pops@[j].src {
                                assert(m2[pushes@[i].dst as int][pops@[j].src as int]);
                            }
                        }
                        assert forall|a: int, b: int| 0 <= a < n && 0 <= b < n && #[trigger] mat(eps@)[a][b] implies m2[a][b] by {
                            if !(a == x && b == z) {
                                assert(before[a][b]);
                            }
                        }
                    }
                }
            },
        }
    }
    eps
}

/// A node of the pushdown graph: a derived type variable with a variance.
#[derive(Clone, Debug)]
pub struct FsaNode {
    pub dtv: DerivedTypeVar,
    pub variance: Variance,
}

/// The pushdown graph of a constraint set: nodes, edges that push or pop a
/// label, and the ε-relation as a matrix.
pub struct FSA {
    pub nodes: Vec<FsaNode>,
    pub pushes: Vec<LabelEdge>,
    pub pops: Vec<LabelEdge>,
    pub eps: Vec<Vec<bool>>,
}

/// The value of node `i`.
pub open spec fn node_view(f: &FSA, i: int) -> (DerivedTypeVarView, Variance) {
    (f.nodes@[i].dtv@, f.nodes@[i].variance)
}

/// `i` is the node of `d` with variance `v`.
pub open spec fn is_node(f: &FSA, i: int, d: DerivedTypeVarView, v: Variance) -> bool {
    0 <= i < f.nodes@.len() && node_view(f, i) == (d, v)
}

/// The derived type variable `d` cut to its first `k` labels.
pub open spec fn prefix(d: DerivedTypeVarView, k: int) -> DerivedTypeVarView {
    DerivedTypeVarView { base: d.base, path: d.path.take(k) }
}

/// There is an ε-edge from the node of `a` to the node of `b`, both with variance `v`.
pub open spec fn eps_between(f: &FSA, a: DerivedTypeVarView, b: DerivedTypeVarView, v: Variance) -> bool {
    exists|i: int, j: int| is_node(f, i, a, v) && is_node(f, j, b, v) && #[trigger] mat(f.eps@)[i][j]
}

/// The edges of the `k`-th label of `d` with variance `v`: a push from
/// `(d_k, v)` to `(d_{k-1}, v * var(l_k))` and the matching pop back.
pub open spec fn label_edges_of(f: &FSA, d: DerivedTypeVarView, k: int, v: Variance) -> bool {
    exists|i: int, j: int| #![trigger f.nodes@[i], f.nodes@[j]]
        is_node(f, i, prefix(d, k), v) && is_node(f, j, prefix(d, k - 1), compose(v, label_variance(d.path[k - 1])))
        && f.pushes@.contains(LabelEdge { src: i as usize, dst: j as usize, label: d.path[k - 1] })
        && f.pops@.contains(LabelEdge { src: j as usize, dst: i as usize, label: d.path[k - 1] })
}

/// Every label of `d` has its edges, for both variances.
pub open spec fn path_encoded(f: &FSA, d: DerivedTypeVarView) -> bool {
    forall|k: int, v: Variance| 1 <= k <= d.path.len() ==> #[trigger] label_edges_of(f, d, k, v)
}

impl FSA {
    /// The matrix is square over the nodes, the edges join nodes, and no two
    /// nodes are equal.
    pub open spec fn wf(&self) -> bool {
        &&& square(mat(self.eps@), self.nodes@.len())
        &&& edges_in(self.pushes@, self.nodes@.len())
        &&& edges_in(self.pops@, self.nodes@.len())
        &&& forall|i: int, j: int| 0 <= i < self.nodes@.len() && 0 <= j < self.nodes@.len()
            && #[trigger] node_view(self, i) == #[trigger] node_view(self, j) ==> i == j
    }

    /// `self` came from `prev` by adding nodes, edges and ε-entries.
    pub open spec fn grows(&self, prev: &FSA) -> bool {
        &&& prev.nodes@.len() <= self.nodes@.len()
        &&& forall|i: int| 0 <= i < prev.nodes@.len() ==> node_view(self, i) == #[trigger] node_view(prev, i)
        &&& forall|e: LabelEdge| #[trigger] prev.pushes@.contains(e) ==> self.pushes@.contains(e)
        &&& forall|e: LabelEdge| #[trigger] prev.pops@.contains(e) ==> self.pops@.contains(e)
        &&& includes(mat(prev.eps@), mat(self.eps@), prev.nodes@.len())
    }

    /// The index of the node of `d` with variance `v`, added with no ε-edges
    /// where it is missing.
    fn intern(&mut self, d: &DerivedTypeVar, v: Variance) -> (r: usize)
        requires
            old(self).wf(),
        ensures
            final(self).wf(),
            final(self).grows(old(self)),
            is_node(final(self), r as int, d@, v),
            final(self).pushes@ == old(self).pushes@,
            final(self).pops@ == old(self).pops@,
    {
        let mut i: usize = 0;
        while i < self.nodes.len()
            invariant
                *self == *old(self),
                self.wf(),
                i <= self.nodes@.len(),
                forall|k: int| 0 <= k < i ==> node_view(self, k) != (d@, v),
            decreases self.nodes@.len() - i,
        {
            if self.nodes[i].dtv == *d && self.nodes[i].variance == v {
                proof {
                    assert(includes(mat(self.eps@), mat(self.eps@), self.nodes@.len()));
                }
                return i;
            }
            i = i + 1;
        }
        let n = self.nodes.len();
        let ghost m0 = mat(self.eps@);
        let mut row: usize = 0;
        while row < self.eps.len()
            invariant
                n == self.nodes@.len(),
                self.nodes@ == old(self).nodes@,
                self.pushes@ == old(self).pushes@,
                self.pops@ == old(self).pops@,
                m0 == mat(old(self).eps@),
                square(m0, n as nat),
                self.eps@.len() == n,
                row <= n,
                forall|k: int| 0 <= k < row ==> (#[trigger] mat(self.eps@)[k]) == m0[k].push(false),
                forall|k: int| row <= k < n ==> (#[trigger] mat(self.eps@)[k]) == m0[k],
            decreases n - row,
        {
            let ghost before = mat(self.eps@);
            assert(before[row as int] == self.eps@[row as int]@);
            let mut r = self.eps[row].clone();
            r.push(false);
            self.eps.set(row, r);
            assert forall|k: int| 0 <= k < row + 1 implies (#[trigger] mat(self.eps@)[k]) == m0[k].push(false) by {
                if k < row {
                    assert(mat(self.eps@)[k] == before[k]);
                }
            }
            assert forall|k: int| row + 1 <= k < n implies (#[trigger] mat(self.eps@)[k]) == m0[k] by {
                assert(mat(self.eps@)[k] == before[k]);
            }
            row = row + 1;
        }
        let mut last: Vec<bool> = Vec::new();
        let mut c: usize = 0;
        while c < n
            invariant
                c <= n,
                last@.len() == c,
                forall|k: int| 0 <= k < c ==> !#[trigger] last@[k],
            decreases n + 1 - c,
        {
            last.push(false);
            c = c + 1;
        }
        last.push(false);
        assert forall|k: int| 0 <= k < last@.len() implies !#[trigger] last@[k] by {}
        let ghost m1 = mat(self.eps@);
        let ghost lv = last@;
        self.eps.push(last);
        assert(mat(self.eps@) =~= m1.push(lv));
        self.nodes.push(FsaNode { dtv: d.duplicate(), variance: v });
        proof {
            let m = mat(self.eps@);
            assert forall|k: int| 0 <= k < n + 1 implies (#[trigger] m[k]).len() == n + 1 by {
                if k < n {
                    assert(m[k] == m1[k]);
                    assert(m1[k] == m0[k].push(false));
                }
            }
            assert forall|x: int, y: int| 0 <= x < n && 0 <= y < n && #[trigger] m0[x][y] implies m[x][y] by {
                assert(m[x] == m1[x]);
                assert(m1[x] == m0[x].push(false));
            }
            assert forall|a: int, b: int| 0 <= a < self.nodes@.len() && 0 <= b < self.nodes@.len()
                && #[trigger] node_view(self, a) == #[trigger] node_view(self, b) implies a == b by {
                if a < n && b < n {
                    assert(node_view(self, a) == node_view(old(self), a));
                    assert(node_view(self, b) == node_view(old(self), b));
                } else if a < n {
                    assert(node_view(self, a) == node_view(old(self), a));
                } else if b < n {
                    assert(node_view(self, b) == node_view(old(self), b));
                }
            }
            assert forall|k: int| 0 <= k < n implies node_view(self, k) == #[trigger] node_view(old(self), k) by {
                assert(self.nodes@[k] == old(self).nodes@[k]);
            }
        }
        n
    }

    proof fn lemma_label_edges_keep(&self, prev: &FSA, d: DerivedTypeVarView, k: int, v: Variance)
        requires
            self.grows(prev),
            label_edges_of(prev, d, k, v),
        ensures
            label_edges_of(self, d, k, v),
    {
        let (i, j) = choose|i: int, j: int| #![trigger prev.nodes@[i], prev.nodes@[j]]
            is_node(prev, i, prefix(d, k), v) && is_node(prev, j, prefix(d, k - 1), compose(v, label_variance(d.path[k - 1])))
            && prev.pushes@.contains(LabelEdge { src: i as usize, dst: j as usize, label: d.path[k - 1] })
            && prev.pops@.contains(LabelEdge { src: j as usize, dst: i as usize, label: d.path[k - 1] });
        assert(node_view(self, i) == node_view(prev, i));
        assert(node_view(self, j) == node_view(prev, j));
        assert(is_node(self, i, prefix(d, k), v));
    }

    proof fn lemma_eps_keep(&self, prev: &FSA, a: DerivedTypeVarView, b: DerivedTypeVarView, v: Variance)
        requires
            self.grows(prev),
            eps_between(prev, a, b, v),
        ensures
            eps_between(self, a, b, v),
    {
        let (i, j) = choose|i: int, j: int| is_node(prev, i, a, v) && is_node(prev, j, b, v) && #[trigger] mat(prev.eps@)[i][j];
        assert(node_view(self, i) == node_view(prev, i));
        assert(node_view(self, j) == node_view(prev, j));
        assert(mat(self.eps@)[i][j]);
    }

    proof fn lemma_grows_trans(&self, mid: &FSA, prev: &FSA)
        requires
            self.grows(mid),
            mid.grows(prev),
            prev.wf(),
            mid.wf(),
        ensures
            self.grows(prev),
    {
        assert forall|i: int| 0 <= i < prev.nodes@.len() implies node_view(self, i) == #[trigger] node_view(prev, i) by {
            assert(node_view(self, i) == node_view(mid, i));
        }
        assert forall|x: int, y: int| 0 <= x < prev.nodes@.len() && 0 <= y < prev.nodes@.len() && #[trigger] mat(prev.eps@)[x][y] implies mat(self.eps@)[x][y] by {
            assert(mat(mid.eps@)[x][y]);
        }
    }

    /// Adds the push and pop edges of every label of `d`, for both variances.
    fn encode_path(&mut self, d: &DerivedTypeVar)
        requires
            old(self).wf(),
        ensures
            final(self).wf(),
            final(self).grows(old(self)),
            path_encoded(final(self), d@),
    {
        let ghost start = *self;
        let mut prev_labels: Vec<FieldLabel> = Vec::new();
        let mut k: usize = 0;
        proof {
            assert(includes(mat(self.eps@), mat(self.eps@), self.nodes@.len()));
        }
        while k < d.labels.len()
            invariant
                self.wf(),
                self.grows(&start),
                start.wf(),
                k <= d.labels@.len(),
                prev_labels@ == d.labels@.take(k as int),
                forall|kk: int, v: Variance| 1 <= kk <= k ==> #[trigger] label_edges_of(self, d@, kk, v),
            decreases d.labels@.len() - k,
        {
            let l = d.labels[k];
            let mut cur_labels = prev_labels.clone();
            cur_labels.push(l);
            assert(cur_labels@ =~= d.labels@.take(k + 1));
            let shorter = DerivedTypeVar::create_with_path(d.var.duplicate(), prev_labels.clone());
            let longer = DerivedTypeVar::create_with_path(d.var.duplicate(), cur_labels.clone());
            assert(shorter@ == prefix(d@, k as int));
            assert(longer@ == prefix(d@, k + 1));
            let ghost before = *self;
            let lv = l.variance();
            let i1 = self.intern(&longer, Variance::Covariant);
            let j1 = self.intern(&shorter, Variance::Covariant.operate(&lv));
            let i2 = self.intern(&longer, Variance::Contravariant);
            let j2 = self.intern(&shorter, Variance::Contravariant.operate(&lv));
            let ghost after_nodes = *self;
            self.pushes.push(LabelEdge { src: i1, dst: j1, label: l });
            self.pops.push(LabelEdge { src: j1, dst: i1, label: l });
            self.pushes.push(LabelEdge { src: i2, dst: j2, label: l });
            self.pops.push(LabelEdge { src: j2, dst: i2, label: l });
            proof {
                assert(self.pushes@.contains((LabelEdge { src: i1, dst: j1, label: l }))) by {
                    assert(self.pushes@[self.pushes@.len() - 2] == (LabelEdge { src: i1, dst: j1, label: l }));
                };
                assert(self.pops@.contains((LabelEdge { src: j1, dst: i1, label: l }))) by {
                    assert(self.pops@[self.pops@.len() - 2] == (LabelEdge { src: j1, dst: i1, label: l }));
                };
                assert(self.pushes@.contains((LabelEdge { src: i2, dst: j2, label: l }))) by {
                    assert(self.pushes@[self.pushes@.len() - 1] == (LabelEdge { src: i2, dst: j2, label: l }));
                };
                assert(self.pops@.contains((LabelEdge { src: j2, dst: i2, label: l }))) by {
                    assert(self.pops@[self.pops@.len() - 1] == (LabelEdge { src: j2, dst: i2, label: l }));
                };
                assert forall|e: LabelEdge| #[trigger] after_nodes.pushes@.contains(e) implies self.pushes@.contains(e) by {
                    let q = choose|q: int| 0 <= q < after_nodes.pushes@.len() && after_nodes.pushes@[q] == e;
                    assert(self.pushes@[q] == e);
                }
                assert forall|e: LabelEdge| #[trigger] after_nodes.pops@.contains(e) implies self.pops@.contains(e) by {
                    let q = choose|q: int| 0 <= q < after_nodes.pops@.len() && after_nodes.pops@[q] == e;
                    assert(self.pops@[q] == e);
                }
                assert forall|q: int| 0 <= q < self.pushes@.len() implies (#[trigger] self.pushes@[q]).src < self.nodes@.len() && self.pushes@[q].dst < self.nodes@.len() by {
                    if q < after_nodes.pushes@.len() {
                        assert(self.pushes@[q] == after_nodes.pushes@[q]);
                    }
                }
                assert forall|q: int| 0 <= q < self.pops@.len() implies (#[trigger] self.pops@[q]).src < self.nodes@.len() && self.pops@[q].dst < self.nodes@.len() by {
                    if q < after_nodes.pops@.len() {
                        assert(self.pops@[q] == after_nodes.pops@[q]);
                    }
                }
                assert(self.nodes@ == after_nodes.nodes@);
                assert(self.eps@ == after_nodes.eps@);
                assert(square(mat(self.eps@), self.nodes@.len()));
                assert(edges_in(self.pushes@, self.nodes@.len()));
                assert(edges_in(self.pops@, self.nodes@.len()));
                assert forall|a: int, b: int| 0 <= a < self.nodes@.len() && 0 <= b < self.nodes@.len()
                    && #[trigger] node_view(self, a) == #[trigger] node_view(self, b) implies a == b by {
                    assert(node_view(self, a) == node_view(&after_nodes, a));
                    assert(node_view(self, b) == node_view(&after_nodes, b));
                }
                assert(includes(mat(after_nodes.eps@), mat(self.eps@), after_nodes.nodes@.len()));
                assert forall|i: int| 0 <= i < after_nodes.nodes@.len() implies node_view(self, i) == #[trigger] node_view(&after_nodes, i) by {}
                assert(self.grows(&after_nodes));
                assert(after_nodes.grows(&before));
                self.lemma_grows_trans(&after_nodes, &before);
                self.lemma_grows_trans(&before, &start);
                assert(d@.path[k as int] == l);
                assert(prefix(d@, k + 1 - 1) == shorter@);
                assert forall|kk: int, v: Variance| 1 <= kk <= k + 1 implies #[trigger] label_edges_of(self, d@, kk, v) by {
                    if kk <= k {
                        self.lemma_label_edges_keep(&before, d@, kk, v);
                    } else if v == Variance::Covariant {
                        assert(is_node(self, i1 as int, prefix(d@, kk), v));
                        assert(is_node(self, j1 as int, prefix(d@, kk - 1), compose(v, label_variance(d@.path[kk - 1]))));
                    } else {
                        assert(is_node(self, i2 as int, prefix(d@, kk), v));
                        assert(is_node(self, j2 as int, prefix(d@, kk - 1), compose(v, label_variance(d@.path[kk - 1]))));
                    }
                }
            }
            prev_labels = cur_labels;
            k = k + 1;
        }
    }

    /// Adds the edges of a constraint `lhs <= rhs`: the label edges of both
    /// sides, an ε-edge from `(lhs, +)` to `(rhs, +)` and one from `(rhs, -)`
    /// to `(lhs, -)`.
    fn add_constraint(&mut self, c: &SubtypeConstraint)
        requires
            old(self).wf(),
        ensures
            final(self).wf(),
            final(self).grows(old(self)),
            path_encoded(final(self), c.lhs@),
            path_encoded(final(self), c.rhs@),
            eps_between(final(self), c.lhs@, c.rhs@, Variance::Covariant),
            eps_between(final(self), c.rhs@, c.lhs@, Variance::Contravariant),
    {
        let ghost s0 = *self;
        self.encode_path(&c.lhs);
        let ghost s1 = *self;
        self.encode_path(&c.rhs);
        let ghost s2 = *self;
        let a_pos = self.intern(&c.lhs, Variance::Covariant);
        let ghost s3 = *self;
        let b_pos = self.intern(&c.rhs, Variance::Covariant);
        let ghost s4 = *self;
        let b_neg = self.intern(&c.rhs, Variance::Contravariant);
        let ghost s5 = *self;
        let a_neg = self.intern(&c.lhs, Variance::Contravariant);
        let ghost s6 = *self;
        let n = self.nodes.len();
        set_entry(&mut self.eps, a_pos, b_pos, n);
        let ghost s7 = *self;
        set_entry(&mut self.eps, b_neg, a_neg, n);
        proof {
            s3.lemma_grows_trans(&s2, &s1);
            s4.lemma_grows_trans(&s3, &s1);
            s5.lemma_grows_trans(&s4, &s1);
            s6.lemma_grows_trans(&s5, &s1);
            s6.lemma_grows_trans(&s5, &s0);
            assert(s6.grows(&s0)) by {
                s2.lemma_grows_trans(&s1, &s0);
                s3.lemma_grows_trans(&s2, &s0);
                s4.lemma_grows_trans(&s3, &s0);
                s5.lemma_grows_trans(&s4, &s0);
                s6.lemma_grows_trans(&s5, &s0);
            }
            assert(self.grows(&s6)) by {
                assert forall|x: int, y: int| 0 <= x < n && 0 <= y < n && #[trigger] mat(s6.eps@)[x][y] implies mat(self.eps@)[x][y] by {
                    assert(mat(s7.eps@)[x][y]);
                }
                assert forall|i: int| 0 <= i < s6.nodes@.len() implies node_view(self, i) == #[trigger] node_view(&s6, i) by {}
            }
            assert(square(mat(self.eps@), self.nodes@.len())) by {
                assert forall|i: int| 0 <= i < n implies (#[trigger] mat(self.eps@)[i]).len() == n by {
                    assert(mat(s7.eps@)[i].len() == n);
                }
            }
            assert(self.wf()) by {
                assert forall|a: int, b: int| 0 <= a < self.nodes@.len() && 0 <= b < self.nodes@.len()
                    && #[trigger] node_view(self, a) == #[trigger] node_view(self, b) implies a == b by {
                    assert(node_view(self, a) == node_view(&s6, a));
                    assert(node_view(self, b) == node_view(&s6, b));
                }
            }
            self.lemma_grows_trans(&s6, &s0);
            self.lemma_grows_trans(&s6, &s1);
            self.lemma_grows_trans(&s6, &s2);
            assert forall|k: int, v: Variance| 1 <= k <= c.lhs@.path.len() implies #[trigger] label_edges_of(self, c.lhs@, k, v) by {
                assert(label_edges_of(&s1, c.lhs@, k, v));
                self.lemma_label_edges_keep(&s1, c.lhs@, k, v);
            }
            assert forall|k: int, v: Variance| 1 <= k <= c.rhs@.path.len() implies #[trigger] label_edges_of(self, c.rhs@, k, v) by {
                assert(label_edges_of(&s2, c.rhs@, k, v));
                self.lemma_label_edges_keep(&s2, c.rhs@, k, v);
            }
            assert(node_view(self, a_pos as int) == node_view(&s3, a_pos as int));
            assert(node_view(self, b_pos as int) == node_view(&s4, b_pos as int));
            assert(node_view(self, b_neg as int) == node_view(&s5, b_neg as int));
            assert(mat(self.eps@)[a_pos as int][b_pos as int]) by {
                assert(mat(s7.eps@)[a_pos as int][b_pos as int]);
            }
            assert(mat(self.eps@)[b_neg as int][a_neg as int]);
        }
    }

    /// The graph of a set of constraints, before saturation.
    pub fn new(cons: &Vec<SubtypeConstraint>) -> (r: FSA)
        ensures
            r.wf(),
            forall|i: int| 0 <= i < cons@.len() ==> path_encoded(&r, (#[trigger] cons@[i]).lhs@) && path_encoded(&r, cons@[i].rhs@)
                && eps_between(&r, cons@[i].lhs@, cons@[i].rhs@, Variance::Covariant)
                && eps_between(&r, cons@[i].rhs@, cons@[i].lhs@, Variance::Contravariant),
    {
        let mut f = FSA { nodes: Vec::new(), pushes: Vec::new(), pops: Vec::new(), eps: Vec::new() };
        assert(mat(f.eps@) =~= Seq::<Seq<bool>>::empty());
        let mut i: usize = 0;
        while i < cons.len()
            invariant
                f.wf(),
                i <= cons@.len(),
                forall|j: int| 0 <= j < i ==> path_encoded(&f, (#[trigger] cons@[j]).lhs@) && path_encoded(&f, cons@[j].rhs@)
                    && eps_between(&f, cons@[j].lhs@, cons@[j].rhs@, Variance::Covariant)
                    && eps_between(&f, cons@[j].rhs@, cons@[j].lhs@, Variance::Contravariant),
            decreases cons@.len() - i,
        {
            let ghost prev = f;
            f.add_constraint(&cons[i]);
            proof {
                assert forall|j: int| 0 <= j < i implies path_encoded(&f, (#[trigger] cons@[j]).lhs@) && path_encoded(&f, cons@[j].rhs@)
                    && eps_between(&f, cons@[j].lhs@, cons@[j].rhs@, Variance::Covariant)
                    && eps_between(&f, cons@[j].rhs@, cons@[j].lhs@, Variance::Contravariant) by {
                    f.lemma_eps_keep(&prev, cons@[j].lhs@, cons@[j].rhs@, Variance::Covariant);
                    f.lemma_eps_keep(&prev, cons@[j].rhs@, cons@[j].lhs@, Variance::Contravariant);
                    assert forall|k: int, v: Variance| 1 <= k <= cons@[j].lhs@.path.len() implies #[trigger] label_edges_of(&f, cons@[j].lhs@, k, v) by {
                        f.lemma_label_edges_keep(&prev, cons@[j].lhs@, k, v);
                    }
                    assert forall|k: int, v: Variance| 1 <= k <= cons@[j].rhs@.path.len() implies #[trigger] label_edges_of(&f, cons@[j].rhs@, k, v) by {
                        f.lemma_label_edges_keep(&prev, cons@[j].rhs@, k, v);
                    }
                }
            }
            i = i + 1;
        }
        f
    }

    /// Closes the ε-relation under transitivity and push/pop cancellation.
    pub fn saturate(&mut self)
        requires
            old(self).wf(),
        ensures
            final(self).wf(),
            final(self).grows(old(self)),
            final(self).nodes@ == old(self).nodes@,
            final(self).pushes@ == old(self).pushes@,
            final(self).pops@ == old(self).pops@,
            transitive(mat(final(self).eps@), final(self).nodes@.len()),
            cancels(mat(final(self).eps@), final(self).pushes@, final(self).pops@),
            forall|m2: Seq<Seq<bool>>| #[trigger] closed_superset(mat(old(self).eps@), m2, old(self).nodes@.len(), old(self).pushes@, old(self).pops@)
                ==> includes(mat(final(self).eps@), m2, old(self).nodes@.len()),
    {
        let mut eps: Vec<Vec<bool>> = Vec::new();
        std::mem::swap(&mut eps, &mut self.eps);
        self.eps = saturate(eps, self.nodes.len(), &self.pushes, &self.pops);
        assert forall|i: int| 0 <= i < old(self).nodes@.len() implies node_view(self, i) == #[trigger] node_view(old(self), i) by {}
        assert forall|a: int, b: int| 0 <= a < self.nodes@.len() && 0 <= b < self.nodes@.len()
            && #[trigger] node_view(self, a) == #[trigger] node_view(self, b) implies a == b by {
            assert(node_view(self, a) == node_view(old(self), a));
            assert(node_view(self, b) == node_view(old(self), b));
        }
    }

    /// The index of the node of `d` with variance `v`, if there is one.
    pub fn find_node(&self, d: &DerivedTypeVar, v: Variance) -> (r: Option<usize>)
        ensures
            r is Some ==> is_node(self, r->Some_0 as int, d@, v),
            r is None ==> forall|i: int| 0 <= i < self.nodes@.len() ==> node_view(self, i) != (d@, v),
    {
        let mut i: usize = 0;
        while i < self.nodes.len()
            invariant
                i <= self.nodes@.len(),
                forall|k: int| 0 <= k < i ==> node_view(self, k) != (d@, v),
            decreases self.nodes@.len() - i,
        {
            if self.nodes[i].dtv == *d && self.nodes[i].variance == v {
                return Some(i);
            }
            i = i + 1;
        }
        None
    }

    /// Whether the graph has an ε-edge from `(a, +)` to `(b, +)`: after
    /// saturation, whether `a <= b` follows from the constraints.
    pub fn is_subtype(&self, a: &DerivedTypeVar, b: &DerivedTypeVar) -> (r: bool)
        requires
            self.wf(),
        ensures
            r == eps_between(self, a@, b@, Variance::Covariant),
    {
        match (self.find_node(a, Variance::Covariant), self.find_node(b, Variance::Covariant)) {
            (Some(i), Some(j)) => {
                assert(mat(self.eps@)[i as int] == self.eps@[i as int]@);
                let r = self.eps[i][j];
                proof {
                    if eps_between(self, a@, b@, Variance::Covariant) {
                        let (x, y) = choose|x: int, y: int| is_node(self, x, a@, Variance::Covariant) && is_node(self, y, b@, Variance::Covariant) && #[trigger] mat(self.eps@)[x][y];
                        assert(node_view(self, x) == node_view(self, i as int));
                        assert(node_view(self, y) == node_view(self, j as int));
                    }
                }
                r
            },
            _ => false,
        }
    }
}

/// In a saturated graph, a field read off a subtype and written to a
/// supertype cancels out: where `x` pushes label `l` to `y`, `y` reaches `z`
/// by ε-edges (or is `z`), and `z` pops `l` to `w`, there is an ε-edge from
/// `x` to `w`; and ε-paths compose.
pub proof fn lemma_saturated_derivation(f: &FSA, i: int, j: int)
    requires
        f.wf(),
        transitive(mat(f.eps@), f.nodes@.len()),
        cancels(mat(f.eps@), f.pushes@, f.pops@),
        0 <= i < f.pushes@.len(),
        0 <= j < f.pops@.len(),
        f.pushes@[i].label == f.pops@[j].label,
        f.pushes@[i].dst == f.pops@[j].src || mat(f.eps@)[f.pushes@[i].dst as int][f.pops@[j].src as int],
    ensures
        mat(f.eps@)[f.pushes@[i].src as int][f.pops@[j].dst as int],
{
}

/// Node `i` is an interesting variable itself (no labels), covariant.
pub open spec fn is_endpoint(f: &FSA, i: int, interesting: Seq<Seq<char>>) -> bool {
    0 <= i < f.nodes@.len() && f.nodes@[i].variance == Variance::Covariant && f.nodes@[i].dtv@.path.len() == 0
        && interesting.contains(f.nodes@[i].dtv@.base)
}

fn contains_var(vs: &Vec<TypeVariable>, t: &TypeVariable) -> (r: bool)
    ensures
        r == vs@.map_values(|v: TypeVariable| v@).contains(t@),
{
    let mut i: usize = 0;
    while i < vs.len()
        invariant
            i <= vs@.len(),
            forall|k: int| 0 <= k < i ==> vs@[k]@ != t@,
        decreases vs@.len() - i,
    {
        if vs[i] == *t {
            assert(vs@.map_values(|v: TypeVariable| v@)[i as int] == t@);
            return true;
        }
        i = i + 1;
    }
    false
}

/// The pair of derived type variables of an ε-edge between two distinct
/// endpoints.
pub open spec fn derived_pair(f: &FSA, iv: Seq<Seq<char>>, p: (DerivedTypeVarView, DerivedTypeVarView)) -> bool {
    exists|a: int, b: int|
        a != b && is_endpoint(f, a, iv) && is_endpoint(f, b, iv) && #[trigger] mat(f.eps@)[a][b]
            && p == (f.nodes@[a].dtv@, f.nodes@[b].dtv@)
}

/// The values of a sequence of constraints.
pub open spec fn pairs_of(r: Seq<SubtypeConstraint>) -> Seq<(DerivedTypeVarView, DerivedTypeVarView)> {
    r.map_values(|c: SubtypeConstraint| c@)
}

impl FSA {
    /// The constraints `a <= b` between distinct interesting variables that an
    /// ε-edge joins, ordered by the index of `a` and then of `b`.
    pub fn walk_constraints(&self, interesting: &Vec<TypeVariable>) -> (r: Vec<SubtypeConstraint>)
        requires
            self.wf(),
        ensures
            forall|k: int| 0 <= k < r@.len() ==> derived_pair(self, interesting@.map_values(|v: TypeVariable| v@), #[trigger] pairs_of(r@)[k]),
            forall|a: int, b: int| a != b && is_endpoint(self, a, interesting@.map_values(|v: TypeVariable| v@))
                && is_endpoint(self, b, interesting@.map_values(|v: TypeVariable| v@)) && #[trigger] mat(self.eps@)[a][b]
                ==> pairs_of(r@).contains((self.nodes@[a].dtv@, self.nodes@[b].dtv@)),
    {
        let ghost iv = interesting@.map_values(|v: TypeVariable| v@);
        let n = self.nodes.len();
        let mut r: Vec<SubtypeConstraint> = Vec::new();
        let mut i: usize = 0;
        while i < n
            invariant
                self.wf(),
                n == self.nodes@.len(),
                iv == interesting@.map_values(|v: TypeVariable| v@),
                i <= n,
                forall|k: int| 0 <= k < r@.len() ==> derived_pair(self, iv, #[trigger] pairs_of(r@)[k]),
                forall|a: int, b: int| 0 <= a < i && a != b && is_endpoint(self, a, iv) && is_endpoint(self, b, iv) && #[trigger] mat(self.eps@)[a][b]
                    ==> pairs_of(r@).contains((self.nodes@[a].dtv@, self.nodes@[b].dtv@)),
            decreases n - i,
        {
            let src_ok = self.nodes[i].variance == Variance::Covariant && self.nodes[i].dtv.labels.len() == 0 && contains_var(interesting, self.nodes[i].dtv.get_base_variable());
            let mut j: usize = 0;
            while j < n
                invariant
                    self.wf(),
                    n == self.nodes@.len(),
                    iv == interesting@.map_values(|v: TypeVariable| v@),
                    i < n,
                    j <= n,
                    src_ok == is_endpoint(self, i as int, iv),
                    forall|k: int| 0 <= k < r@.len() ==> derived_pair(self, iv, #[trigger] pairs_of(r@)[k]),
                    forall|a: int, b: int| 0 <= a < i && a != b && is_endpoint(self, a, iv) && is_endpoint(self, b, iv) && #[trigger] mat(self.eps@)[a][b]
                        ==> pairs_of(r@).contains((self.nodes@[a].dtv@, self.nodes@[b].dtv@)),
                    forall|b: int| 0 <= b < j && i != b && is_endpoint(self, i as int, iv) && is_endpoint(self, b, iv) && #[trigger] mat(self.eps@)[i as int][b]
                        ==> pairs_of(r@).contains((self.nodes@[i as int].dtv@, self.nodes@[b].dtv@)),
                decreases n - j,
            {
                assert(mat(self.eps@)[i as int] == self.eps@[i as int]@);
                let dst_ok = self.nodes[j].variance == Variance::Covariant && self.nodes[j].dtv.labels.len() == 0 && contains_var(interesting, self.nodes[j].dtv.get_base_variable());
                if src_ok && dst_ok && i != j && self.eps[i][j] {
                    let c = SubtypeConstraint::new(self.nodes[i].dtv.duplicate(), self.nodes[j].dtv.duplicate());
                    let ghost before = pairs_of(r@);
                    r.push(c);
                    proof {
                        assert(pairs_of(r@) =~= before.push((self.nodes@[i as int].dtv@, self.nodes@[j as int].dtv@)));
                        assert(derived_pair(self, iv, (self.nodes@[i as int].dtv@, self.nodes@[j as int].dtv@))) by {
                            assert(mat(self.eps@)[i as int][j as int]);
                        }
                        assert forall|k: int| 0 <= k < r@.len() implies derived_pair(self, iv, #[trigger] pairs_of(r@)[k]) by {
                            if k < before.len() {
                                assert(pairs_of(r@)[k] == before[k]);
                            }
                        }
                        assert forall|a: int, b: int| 0 <= a < i && a != b && is_endpoint(self, a, iv) && is_endpoint(self, b, iv) && #[trigger] mat(self.eps@)[a][b]
                            implies pairs_of(r@).contains((self.nodes@[a].dtv@, self.nodes@[b].dtv@)) by {
                            let k = choose|k: int| 0 <= k < before.len() && before[k] == (self.nodes@[a].dtv@, self.nodes@[b].dtv@);
                            assert(pairs_of(r@)[k] == before[k]);
                        }
                        assert forall|b: int| 0 <= b < j + 1 && i != b && is_endpoint(self, i as int, iv) && is_endpoint(self, b, iv) && #[trigger] mat(self.eps@)[i as int][b]
                            implies pairs_of(r@).contains((self.nodes@[i as int].dtv@, self.nodes@[b].dtv@)) by {
                            if b < j {
                                let k = choose|k: int| 0 <= k < before.len() && before[k] == (self.nodes@[i as int].dtv@, self.nodes@[b].dtv@);
                                assert(pairs_of(r@)[k] == before[k]);
                            } else {
                                assert(pairs_of(r@)[before.len() as int] == (self.nodes@[i as int].dtv@, self.nodes@[b].dtv@));
                            }
                        }
                    }
                }
                j = j + 1;
            }
            i = i + 1;
        }
        r
    }
}

/// A transition of the pop-then-push automaton run over the graph, from node
/// `a` in phase `pa` to node `b` in phase `pb`: phase 0 reads pops, phase 1
/// pushes; ε-edges keep the phase, a pop stays in phase 0, a push leads to
/// phase 1.
pub open spec fn arc(f: &FSA, a: int, pa: int, b: int, pb: int) -> bool {
    0 <= a < f.nodes@.len() && 0 <= b < f.nodes@.len() && 0 <= pa < 2 && 0 <= pb < 2 && (
        (pa == pb && mat(f.eps@)[a][b])
        || (pa == 0 && pb == 0 && exists|j: int| 0 <= j < f.pops@.len() && #[trigger] f.pops@[j].src == a as usize && f.pops@[j].dst == b as usize)
        || (pb == 1 && exists|j: int| 0 <= j < f.pushes@.len() && #[trigger] f.pushes@[j].src == a as usize && f.pushes@[j].dst == b as usize))
}

/// A transition in the direction of the search: from `(a, pa)` to
/// `(b, pb)` forward, against it backward.
pub open spec fn dir_arc(f: &FSA, forward: bool, a: int, pa: int, b: int, pb: int) -> bool {
    if forward { arc(f, a, pa, b, pb) } else { arc(f, b, pb, a, pa) }
}

/// The start states of the search: endpoints in phase 0 forward, endpoints
/// in either phase backward.
pub open spec fn start_state(ep: Seq<bool>, forward: bool, x: int, p: int) -> bool {
    0 <= x < ep.len() && ep[x] && 0 <= p < 2 && (!forward || p == 0)
}

/// Node `x` in phase `p` is reached within `k` transitions of the search
/// from a start state.
pub open spec fn reach(f: &FSA, ep: Seq<bool>, forward: bool, k: nat, x: int, p: int) -> bool
    decreases k,
{
    if k == 0 {
        start_state(ep, forward, x, p)
    } else {
        reach(f, ep, forward, (k - 1) as nat, x, p) || exists|y: int, q: int|
            reach(f, ep, forward, (k - 1) as nat, y, q) && #[trigger] dir_arc(f, forward, y, q, x, p)
    }
}

/// The marks of a phase.
pub open spec fn marked(m0: Seq<bool>, m1: Seq<bool>, x: int, p: int) -> bool {
    if p == 0 { m0[x] } else if p == 1 { m1[x] } else { false }
}

fn has_pop(f: &FSA, a: usize, b: usize) -> (r: bool)
    ensures
        r == exists|j: int| 0 <= j < f.pops@.len() && #[trigger] f.pops@[j].src == a && f.pops@[j].dst == b,
{
    let mut j: usize = 0;
    while j < f.pops.len()
        invariant
            j <= f.pops@.len(),
            forall|k: int| 0 <= k < j ==> !(#[trigger] f.pops@[k].src == a && f.pops@[k].dst == b),
        decreases f.pops@.len() - j,
    {
        if f.pops[j].src == a && f.pops[j].dst == b {
            return true;
        }
        j = j + 1;
    }
    false
}

fn has_push(f: &FSA, a: usize, b: usize) -> (r: bool)
    ensures
        r == exists|j: int| 0 <= j < f.pushes@.len() && #[trigger] f.pushes@[j].src == a && f.pushes@[j].dst == b,
{
    let mut j: usize = 0;
    while j < f.pushes.len()
        invariant
            j <= f.pushes@.len(),
            forall|k: int| 0 <= k < j ==> !(#[trigger] f.pushes@[k].src == a && f.pushes@[k].dst == b),
        decreases f.pushes@.len() - j,
    {
        if f.pushes[j].src == a && f.pushes[j].dst == b {
            return true;
        }
        j = j + 1;
    }
    false
}

fn arc_exec(f: &FSA, a: usize, pa: usize, b: usize, pb: usize) -> (r: bool)
    requires
        f.wf(),
        a < f.nodes@.len(),
        b < f.nodes@.len(),
        pa < 2,
        pb < 2,
    ensures
        r == arc(f, a as int, pa as int, b as int, pb as int),
{
    assert(mat(f.eps@)[a as int] == f.eps@[a as int]@);
    (pa == pb && f.eps[a][b]) || (pa == 0 && pb == 0 && has_pop(f, a, b)) || (pb == 1 && has_push(f, a, b))
}

fn mark_of(m0: &Vec<bool>, m1: &Vec<bool>, x: usize, p: usize) -> (r: bool)
    requires
        p < 2,
        x < m0@.len(),
        x < m1@.len(),
    ensures
        r == marked(m0@, m1@, x as int, p as int),
{
    if p == 0 { m0[x] } else { m1[x] }
}

/// A state the marks still lack: a start state, or one joined by a
/// transition of the search from a marked state.
fn find_unmarked(f: &FSA, ep: &Vec<bool>, forward: bool, m0: &Vec<bool>, m1: &Vec<bool>) -> (r: Option<(usize, usize, Ghost<Option<(int, int)>>)>)
    requires
        f.wf(),
        ep@.len() == f.nodes@.len(),
        m0@.len() == f.nodes@.len(),
        m1@.len() == f.nodes@.len(),
    ensures
        r is None ==> (forall|x: int, p: int| #[trigger] start_state(ep@, forward, x, p) ==> marked(m0@, m1@, x, p))
            && (forall|a: int, pa: int, b: int, pb: int| #[trigger] dir_arc(f, forward, a, pa, b, pb) && marked(m0@, m1@, a, pa)
                ==> marked(m0@, m1@, b, pb)),
        r is Some ==> ({
            let (x, p, w) = r->Some_0;
            &&& x < f.nodes@.len() && p < 2 && !marked(m0@, m1@, x as int, p as int)
            &&& match w@ {
                None => start_state(ep@, forward, x as int, p as int),
                Some((y, q)) => marked(m0@, m1@, y, q) && dir_arc(f, forward, y, q, x as int, p as int),
            }
        }),
{
    let n = f.nodes.len();
    let mut x: usize = 0;
    while x < n
        invariant
            n == f.nodes@.len(),
            ep@.len() == n,
            m0@.len() == n,
            m1@.len() == n,
            x <= n,
            forall|y: int, p: int| 0 <= y < x && #[trigger] start_state(ep@, forward, y, p) ==> marked(m0@, m1@, y, p),
        decreases n - x,
    {
        if ep[x] {
            if !m0[x] {
                return Some((x, 0, Ghost(None)));
            }
            if !forward && !m1[x] {
                return Some((x, 1, Ghost(None)));
            }
        }
        x = x + 1;
    }
    let mut a: usize = 0;
    while a < n
        invariant
            f.wf(),
            n == f.nodes@.len(),
            m0@.len() == n,
            m1@.len() == n,
            a <= n,
            forall|a2: int, pa: int, b: int, pb: int| 0 <= a2 < a && #[trigger] dir_arc(f, forward, a2, pa, b, pb) && marked(m0@, m1@, a2, pa)
                ==> marked(m0@, m1@, b, pb),
        decreases n - a,
    {
        let mut b: usize = 0;
        while b < n
            invariant
                f.wf(),
                n == f.nodes@.len(),
                m0@.len() == n,
                m1@.len() == n,
                a < n,
                b <= n,
                forall|a2: int, pa: int, b2: int, pb: int| 0 <= a2 < a && #[trigger] dir_arc(f, forward, a2, pa, b2, pb) && marked(m0@, m1@, a2, pa)
                    ==> marked(m0@, m1@, b2, pb),
                forall|pa: int, b2: int, pb: int| 0 <= b2 < b && #[trigger] dir_arc(f, forward, a as int, pa, b2, pb) && marked(m0@, m1@, a as int, pa)
                    ==> marked(m0@, m1@, b2, pb),
            decreases n - b,
        {
            let mut pa: usize = 0;
            while pa < 2
                invariant
                    f.wf(),
                    n == f.nodes@.len(),
                    m0@.len() == n,
                    m1@.len() == n,
                    a < n,
                    b < n,
                    pa <= 2,
                    forall|a2: int, pa2: int, b2: int, pb: int| 0 <= a2 < a && #[trigger] dir_arc(f, forward, a2, pa2, b2, pb) && marked(m0@, m1@, a2, pa2)
                        ==> marked(m0@, m1@, b2, pb),
                    forall|pa2: int, b2: int, pb: int| 0 <= b2 < b && #[trigger] dir_arc(f, forward, a as int, pa2, b2, pb) && marked(m0@, m1@, a as int, pa2)
                        ==> marked(m0@, m1@, b2, pb),
                    forall|pa2: int, pb: int| 0 <= pa2 < pa && #[trigger] dir_arc(f, forward, a as int, pa2, b as int, pb) && marked(m0@, m1@, a as int, pa2)
                        ==> marked(m0@, m1@, b as int, pb),
                decreases 2 - pa,
            {
                let mut pb: usize = 0;
                while pb < 2
                    invariant
                        f.wf(),
                        n == f.nodes@.len(),
                        m0@.len() == n,
                        m1@.len() == n,
                        a < n,
                        b < n,
                        pa < 2,
                        pb <= 2,
                        forall|pb2: int| 0 <= pb2 < pb && #[trigger] dir_arc(f, forward, a as int, pa as int, b as int, pb2) && marked(m0@, m1@, a as int, pa as int)
                            ==> marked(m0@, m1@, b as int, pb2),
                    decreases 2 - pb,
                {
                    let t = if forward { arc_exec(f, a, pa, b, pb) } else { arc_exec(f, b, pb, a, pa) };
                    if t && mark_of(m0, m1, a, pa) && !mark_of(m0, m1, b, pb) {
                        return Some((b, pb, Ghost(Some((a as int, pa as int)))));
                    }
                    pb = pb + 1;
                }
                assert forall|pb2: int| 0 <= pb2 < 2 implies (#[trigger] dir_arc(f, forward, a as int, pa as int, b as int, pb2) && marked(m0@, m1@, a as int, pa as int)
                    ==> marked(m0@, m1@, b as int, pb2)) by {}
                pa = pa + 1;
            }
            assert forall|pa2: int, pb: int| #[trigger] dir_arc(f, forward, a as int, pa2, b as int, pb) && marked(m0@, m1@, a as int, pa2)
                implies marked(m0@, m1@, b as int, pb) by {
                assert(0 <= pa2 < 2);
            }
            b = b + 1;
        }
        assert forall|pa: int, b2: int, pb: int| #[trigger] dir_arc(f, forward, a as int, pa, b2, pb) && marked(m0@, m1@, a as int, pa)
            implies marked(m0@, m1@, b2, pb) by {
            assert(0 <= b2 < n);
        }
        a = a + 1;
    }
    assert forall|x: int, p: int| #[trigger] start_state(ep@, forward, x, p) implies marked(m0@, m1@, x, p) by {}
    assert forall|a2: int, pa: int, b: int, pb: int| #[trigger] dir_arc(f, forward, a2, pa, b, pb) && marked(m0@, m1@, a2, pa)
        implies marked(m0@, m1@, b, pb) by {
        assert(0 <= a2 < n);
    }
    None
}

proof fn lemma_reach_marked(f: &FSA, ep: Seq<bool>, forward: bool, m0: Seq<bool>, m1: Seq<bool>, k: nat, x: int, p: int)
    requires
        forall|x2: int, p2: int| #[trigger] start_state(ep, forward, x2, p2) ==> marked(m0, m1, x2, p2),
        forall|a: int, pa: int, b: int, pb: int| #[trigger] dir_arc(f, forward, a, pa, b, pb) && marked(m0, m1, a, pa) ==> marked(m0, m1, b, pb),
        reach(f, ep, forward, k, x, p),
    ensures
        marked(m0, m1, x, p),
    decreases k,
{
    if k > 0 {
        if reach(f, ep, forward, (k - 1) as nat, x, p) {
            lemma_reach_marked(f, ep, forward, m0, m1, (k - 1) as nat, x, p);
        } else {
            let (y, q) = choose|y: int, q: int| reach(f, ep, forward, (k - 1) as nat, y, q) && #[trigger] dir_arc(f, forward, y, q, x, p);
            lemma_reach_marked(f, ep, forward, m0, m1, (k - 1) as nat, y, q);
        }
    }
}

fn set_mark(m0: &mut Vec<bool>, m1: &mut Vec<bool>, x: usize, p: usize)
    requires
        x < old(m0)@.len(),
        x < old(m1)@.len(),
        p < 2,
        !marked(old(m0)@, old(m1)@, x as int, p as int),
    ensures
        final(m0)@.len() == old(m0)@.len(),
        final(m1)@.len() == old(m1)@.len(),
        row_count(final(m0)@) + row_count(final(m1)@) == row_count(old(m0)@) + row_count(old(m1)@) + 1,
        forall|y: int, q: int| 0 <= y < old(m0)@.len() && 0 <= y < old(m1)@.len() ==> (marked(final(m0)@, final(m1)@, y, q) <==> (marked(old(m0)@, old(m1)@, y, q) || (y == x && q == p))),
{
    if p == 0 {
        proof { lemma_row_count_set(m0@, x as int); }
        m0.set(x, true);
        assert(m0@ == old(m0)@.update(x as int, true));
    } else {
        proof { lemma_row_count_set(m1@, x as int); }
        m1.set(x, true);
        assert(m1@ == old(m1)@.update(x as int, true));
    }
}

/// The states the search reaches: marks in phase 0 and in phase 1, exactly
/// those states that some number of transitions reaches from a start state.
fn mark_closure(f: &FSA, ep: &Vec<bool>, forward: bool) -> (r: (Vec<bool>, Vec<bool>))
    requires
        f.wf(),
        ep@.len() == f.nodes@.len(),
    ensures
        r.0@.len() == f.nodes@.len(),
        r.1@.len() == f.nodes@.len(),
        forall|x: int, p: int| 0 <= x < f.nodes@.len() && 0 <= p < 2 && #[trigger] marked(r.0@, r.1@, x, p)
            ==> exists|k: nat| reach(f, ep@, forward, k, x, p),
        forall|k: nat, x: int, p: int| #[trigger] reach(f, ep@, forward, k, x, p) ==> marked(r.0@, r.1@, x, p),
{
    let n = f.nodes.len();
    let mut m0: Vec<bool> = Vec::new();
    let mut m1: Vec<bool> = Vec::new();
    let mut i: usize = 0;
    while i < n
        invariant
            i <= n,
            m0@.len() == i,
            m1@.len() == i,
            forall|k: int| 0 <= k < i ==> !(#[trigger] m0@[k]),
            forall|k: int| 0 <= k < i ==> !(#[trigger] m1@[k]),
        decreases n - i,
    {
        m0.push(false);
        m1.push(false);
        i = i + 1;
    }
    proof {
        lemma_row_count_bound(m0@);
        lemma_row_count_bound(m1@);
        assert forall|x: int, p: int| 0 <= x < n && 0 <= p < 2 && #[trigger] marked(m0@, m1@, x, p)
            implies exists|k: nat| reach(f, ep@, forward, k, x, p) by {
            assert(!m0@[x] && !m1@[x]);
        }
    }
    let mut done = false;
    while !done
        invariant
            f.wf(),
            n == f.nodes@.len(),
            ep@.len() == n,
            m0@.len() == n,
            m1@.len() == n,
            row_count(m0@) <= n,
            row_count(m1@) <= n,
            forall|x: int, p: int| 0 <= x < n && 0 <= p < 2 && #[trigger] marked(m0@, m1@, x, p)
                ==> exists|k: nat| reach(f, ep@, forward, k, x, p),
            done ==> (forall|x: int, p: int| #[trigger] start_state(ep@, forward, x, p) ==> marked(m0@, m1@, x, p))
                && (forall|a: int, pa: int, b: int, pb: int| #[trigger] dir_arc(f, forward, a, pa, b, pb) && marked(m0@, m1@, a, pa)
                    ==> marked(m0@, m1@, b, pb)),
        decreases 2 * (2 * n - row_count(m0@) - row_count(m1@)) + if done { 0int } else { 1int },
    {
        match find_unmarked(f, ep, forward, &m0, &m1) {
            None => {
                done = true;
            },
            Some((x, p, w)) => {
                let ghost old0 = m0@;
                let ghost old1 = m1@;
                proof {
                    match w@ {
                        None => {
                            assert(reach(f, ep@, forward, 0, x as int, p as int));
                        },
                        Some((y, q)) => {
                            assert(0 <= y < n && 0 <= q < 2);
                            let k = choose|k: nat| reach(f, ep@, forward, k, y, q);
                            assert(reach(f, ep@, forward, k + 1, x as int, p as int));
                        },
                    }
                }
                set_mark(&mut m0, &mut m1, x, p);
                proof {
                    lemma_row_count_bound(m0@);
                    lemma_row_count_bound(m1@);
                    assert forall|y: int, q: int| 0 <= y < n && 0 <= q < 2 && #[trigger] marked(m0@, m1@, y, q)
                        implies exists|k: nat| reach(f, ep@, forward, k, y, q) by {
                        if !(y == x && q == p) {
                            assert(marked(old0, old1, y, q));
                        } else {
                            match w@ {
                                None => {
                                    assert(reach(f, ep@, forward, 0, y, q));
                                },
                                Some((y2, q2)) => {
                                    let k = choose|k: nat| reach(f, ep@, forward, k, y2, q2);
                                    assert(reach(f, ep@, forward, k + 1, y, q));
                                },
                            }
                        }
                    }
                }
            },
        }
    }
    proof {
        assert forall|k: nat, x: int, p: int| #[trigger] reach(f, ep@, forward, k, x, p) implies marked(m0@, m1@, x, p) by {
            lemma_reach_marked(f, ep@, forward, m0@, m1@, k, x, p);
        }
    }
    (m0, m1)
}

/// Node `x` in phase `p` lies after some pops and pushes of a path that
/// starts at an endpoint in phase 0.
pub open spec fn from_start(f: &FSA, ep: Seq<bool>, x: int, p: int) -> bool {
    exists|k: nat| reach(f, ep, true, k, x, p)
}

/// From node `x` in phase `p` some pops and pushes lead to an endpoint.
pub open spec fn to_end(f: &FSA, ep: Seq<bool>, x: int, p: int) -> bool {
    exists|k: nat| reach(f, ep, false, k, x, p)
}

/// The endpoint flags of the nodes.
pub open spec fn endpoint_flags(f: &FSA, iv: Seq<Seq<char>>) -> Seq<bool> {
    Seq::new(f.nodes@.len(), |x: int| is_endpoint(f, x, iv))
}

/// The label edges of a graph that lie on a path which pops, then pushes,
/// between two endpoints.
pub struct PopPushGraph {
    pub pops: Vec<LabelEdge>,
    pub pushes: Vec<LabelEdge>,
}

impl FSA {
    fn endpoints(&self, interesting: &Vec<TypeVariable>) -> (r: Vec<bool>)
        ensures
            r@ == endpoint_flags(self, interesting@.map_values(|v: TypeVariable| v@)),
    {
        let mut r: Vec<bool> = Vec::new();
        let mut i: usize = 0;
        while i < self.nodes.len()
            invariant
                i <= self.nodes@.len(),
                r@ == endpoint_flags(self, interesting@.map_values(|v: TypeVariable| v@)).take(i as int),
            decreases self.nodes@.len() - i,
        {
            let b = self.nodes[i].variance == Variance::Covariant && self.nodes[i].dtv.labels.len() == 0 && contains_var(interesting, self.nodes[i].dtv.get_base_variable());
            r.push(b);
            assert(r@ =~= endpoint_flags(self, interesting@.map_values(|v: TypeVariable| v@)).take(i + 1));
            i = i + 1;
        }
        assert(r@ =~= endpoint_flags(self, interesting@.map_values(|v: TypeVariable| v@)));
        r
    }

    /// The pop and push edges that lie on a path from an endpoint to an
    /// endpoint that first pops labels and then pushes them: pops taken
    /// before any push, ε-edges anywhere.
    pub fn intersect_with_pop_push(&self, interesting: &Vec<TypeVariable>) -> (r: PopPushGraph)
        requires
            self.wf(),
        ensures
            forall|i: int| 0 <= i < r.pops@.len() ==> self.pops@.contains(#[trigger] r.pops@[i])
                && from_start(self, endpoint_flags(self, interesting@.map_values(|v: TypeVariable| v@)), r.pops@[i].src as int, 0)
                && to_end(self, endpoint_flags(self, interesting@.map_values(|v: TypeVariable| v@)), r.pops@[i].dst as int, 0),
            forall|j: int| 0 <= j < self.pops@.len()
                && from_start(self, endpoint_flags(self, interesting@.map_values(|v: TypeVariable| v@)), self.pops@[j].src as int, 0)
                && to_end(self, endpoint_flags(self, interesting@.map_values(|v: TypeVariable| v@)), self.pops@[j].dst as int, 0)
                ==> r.pops@.contains(#[trigger] self.pops@[j]),
            forall|i: int| 0 <= i < r.pushes@.len() ==> self.pushes@.contains(#[trigger] r.pushes@[i])
                && (from_start(self, endpoint_flags(self, interesting@.map_values(|v: TypeVariable| v@)), r.pushes@[i].src as int, 0)
                    || from_start(self, endpoint_flags(self, interesting@.map_values(|v: TypeVariable| v@)), r.pushes@[i].src as int, 1))
                && to_end(self, endpoint_flags(self, interesting@.map_values(|v: TypeVariable| v@)), r.pushes@[i].dst as int, 1),
            forall|j: int| 0 <= j < self.pushes@.len()
                && (from_start(self, endpoint_flags(self, interesting@.map_values(|v: TypeVariable| v@)), self.pushes@[j].src as int, 0)
                    || from_start(self, endpoint_flags(self, interesting@.map_values(|v: TypeVariable| v@)), self.pushes@[j].src as int, 1))
                && to_end(self, endpoint_flags(self, interesting@.map_values(|v: TypeVariable| v@)), self.pushes@[j].dst as int, 1)
                ==> r.pushes@.contains(#[trigger] self.pushes@[j]),
    {
        let ghost ep = endpoint_flags(self, interesting@.map_values(|v: TypeVariable| v@));
        let epv = self.endpoints(interesting);
        let (f0, f1) = mark_closure(self, &epv, true);
        let (b0, b1) = mark_closure(self, &epv, false);
        let mut pops: Vec<LabelEdge> = Vec::new();
        let mut j: usize = 0;
        while j < self.pops.len()
            invariant
                self.wf(),
                epv@ == ep,
                f0@.len() == self.nodes@.len(),
                b0@.len() == self.nodes@.len(),
                forall|x: int, p: int| 0 <= x < self.nodes@.len() && 0 <= p < 2 && #[trigger] marked(f0@, f1@, x, p)
                    ==> exists|k: nat| reach(self, ep, true, k, x, p),
                forall|k: nat, x: int, p: int| #[trigger] reach(self, ep, true, k, x, p) ==> marked(f0@, f1@, x, p),
                forall|x: int, p: int| 0 <= x < self.nodes@.len() && 0 <= p < 2 && #[trigger] marked(b0@, b1@, x, p)
                    ==> exists|k: nat| reach(self, ep, false, k, x, p),
                forall|k: nat, x: int, p: int| #[trigger] reach(self, ep, false, k, x, p) ==> marked(b0@, b1@, x, p),
                j <= self.pops@.len(),
                forall|i: int| 0 <= i < pops@.len() ==> self.pops@.contains(#[trigger] pops@[i])
                    && from_start(self, ep, pops@[i].src as int, 0) && to_end(self, ep, pops@[i].dst as int, 0),
                forall|i: int| 0 <= i < j && from_start(self, ep, self.pops@[i].src as int, 0) && to_end(self, ep, self.pops@[i].dst as int, 0)
                    ==> pops@.contains(#[trigger] self.pops@[i]),
            decreases self.pops@.len() - j,
        {
            let e = self.pops[j];
            proof {
                assert(e.src < self.nodes@.len() && e.dst < self.nodes@.len());
                if from_start(self, ep, e.src as int, 0) {
                    let k = choose|k: nat| reach(self, ep, true, k, e.src as int, 0);
                    assert(marked(f0@, f1@, e.src as int, 0));
                }
                if to_end(self, ep, e.dst as int, 0) {
                    let k = choose|k: nat| reach(self, ep, false, k, e.dst as int, 0);
                    assert(marked(b0@, b1@, e.dst as int, 0));
                }
                if f0@[e.src as int] {
                    assert(marked(f0@, f1@, e.src as int, 0));
                }
                if b0@[e.dst as int] {
                    assert(marked(b0@, b1@, e.dst as int, 0));
                }
            }
            let ghost before = pops@;
            if f0[e.src] && b0[e.dst] {
                pops.push(e);
                proof {
                    assert(pops@[pops@.len() - 1] == e);
                    assert forall|i: int| 0 <= i < pops@.len() implies self.pops@.contains(#[trigger] pops@[i])
                        && from_start(self, ep, pops@[i].src as int, 0) && to_end(self, ep, pops@[i].dst as int, 0) by {
                        if i < before.len() {
                            assert(pops@[i] == before[i]);
                        } else {
                            assert(self.pops@[j as int] == e);
                        }
                    }
                }
            }
            proof {
                assert forall|i: int| 0 <= i < j + 1 && from_start(self, ep, self.pops@[i].src as int, 0) && to_end(self, ep, self.pops@[i].dst as int, 0)
                    implies pops@.contains(#[trigger] self.pops@[i]) by {
                    if i < j {
                        let q = choose|q: int| 0 <= q < before.len() && before[q] == self.pops@[i];
                        assert(pops@[q] == before[q]);
                    } else {
                        assert(pops@[pops@.len() - 1] == e);
                    }
                }
            }
            j = j + 1;
        }
        let mut pushes: Vec<LabelEdge> = Vec::new();
        let mut j: usize = 0;
        while j < self.pushes.len()
            invariant
                self.wf(),
                epv@ == ep,
                f0@.len() == self.nodes@.len(),
                f1@.len() == self.nodes@.len(),
                b1@.len() == self.nodes@.len(),
                forall|x: int, p: int| 0 <= x < self.nodes@.len() && 0 <= p < 2 && #[trigger] marked(f0@, f1@, x, p)
                    ==> exists|k: nat| reach(self, ep, true, k, x, p),
                forall|k: nat, x: int, p: int| #[trigger] reach(self, ep, true, k, x, p) ==> marked(f0@, f1@, x, p),
                forall|x: int, p: int| 0 <= x < self.nodes@.len() && 0 <= p < 2 && #[trigger] marked(b0@, b1@, x, p)
                    ==> exists|k: nat| reach(self, ep, false, k, x, p),
                forall|k: nat, x: int, p: int| #[trigger] reach(self, ep, false, k, x, p) ==> marked(b0@, b1@, x, p),
                j <= self.pushes@.len(),
                forall|i: int| 0 <= i < pushes@.len() ==> self.pushes@.contains(#[trigger] pushes@[i])
                    && (from_start(self, ep, pushes@[i].src as int, 0) || from_start(self, ep, pushes@[i].src as int, 1))
                    && to_end(self, ep, pushes@[i].dst as int, 1),
                forall|i: int| 0 <= i < j && (from_start(self, ep, self.pushes@[i].src as int, 0) || from_start(self, ep, self.pushes@[i].src as int, 1))
                    && to_end(self, ep, self.pushes@[i].dst as int, 1)
                    ==> pushes@.contains(#[trigger] self.pushes@[i]),
            decreases self.pushes@.len() - j,
        {
            let e = self.pushes[j];
            proof {
                assert(e.src < self.nodes@.len() && e.dst < self.nodes@.len());
                if from_start(self, ep, e.src as int, 0) {
                    let k = choose|k: nat| reach(self, ep, true, k, e.src as int, 0);
                    assert(marked(f0@, f1@, e.src as int, 0));
                }
                if from_start(self, ep, e.src as int, 1) {
                    let k = choose|k: nat| reach(self, ep, true, k, e.src as int, 1);
                    assert(marked(f0@, f1@, e.src as int, 1));
                }
                if to_end(self, ep, e.dst as int, 1) {
                    let k = choose|k: nat| reach(self, ep, false, k, e.dst as int, 1);
                    assert(marked(b0@, b1@, e.dst as int, 1));
                }
                if f0@[e.src as int] {
                    assert(marked(f0@, f1@, e.src as int, 0));
                }
                if f1@[e.src as int] {
                    assert(marked(f0@, f1@, e.src as int, 1));
                }
                if b1@[e.dst as int] {
                    assert(marked(b0@, b1@, e.dst as int, 1));
                }
            }
            let ghost before = pushes@;
            if (f0[e.src] || f1[e.src]) && b1[e.dst] {
                pushes.push(e);
                proof {
                    assert(pushes@[pushes@.len() - 1] == e);
                    assert forall|i: int| 0 <= i < pushes@.len() implies self.pushes@.contains(#[trigger] pushes@[i])
                        && (from_start(self, ep, pushes@[i].src as int, 0) || from_start(self, ep, pushes@[i].src as int, 1))
                        && to_end(self, ep, pushes@[i].dst as int, 1) by {
                        if i < before.len() {
                            assert(pushes@[i] == before[i]);
                        } else {
                            assert(self.pushes@[j as int] == e);
                        }
                    }
                }
            }
            proof {
                assert forall|i: int| 0 <= i < j + 1 && (from_start(self, ep, self.pushes@[i].src as int, 0) || from_start(self, ep, self.pushes@[i].src as int, 1))
                    && to_end(self, ep, self.pushes@[i].dst as int, 1)
                    implies pushes@.contains(#[trigger] self.pushes@[i]) by {
                    if i < j {
                        let q = choose|q: int| 0 <= q < before.len() && before[q] == self.pushes@[i];
                        assert(pushes@[q] == before[q]);
                    } else {
                        assert(pushes@[pushes@.len() - 1] == e);
                    }
                }
            }
            j = j + 1;
        }
        PopPushGraph { pops, pushes }
    }
}

/// The names of a sequence of variables.
pub open spec fn var_names(v: Seq<TypeVariable>) -> Seq<Seq<char>> {
    v.map_values(|t: TypeVariable| t@)
}

/// `a` is `b`, or an ε-edge joins them.
pub open spec fn eps_or_same(f: &FSA, a: int, b: int) -> bool {
    a == b || mat(f.eps@)[a][b]
}

/// `d` with one more label.
pub open spec fn extended(d: DerivedTypeVarView, l: FieldLabel) -> DerivedTypeVarView {
    DerivedTypeVarView { base: d.base, path: d.path.push(l) }
}

/// The constraint read off a path from endpoint `x` to endpoint `y` through
/// the label edge `e`: a pop of `l` gives `x.l <= y`, a push of `l` gives
/// `x <= y.l`.
pub open spec fn label_derivation(f: &FSA, iv: Seq<Seq<char>>, x: int, y: int, e: LabelEdge, is_pop: bool) -> bool {
    &&& is_endpoint(f, x, iv)
    &&& is_endpoint(f, y, iv)
    &&& (if is_pop { f.pops@.contains(e) } else { f.pushes@.contains(e) })
    &&& eps_or_same(f, x, e.src as int)
    &&& eps_or_same(f, e.dst as int, y)
}

/// The pair of a label derivation.
pub open spec fn label_pair(f: &FSA, x: int, y: int, l: FieldLabel, is_pop: bool) -> (DerivedTypeVarView, DerivedTypeVarView) {
    if is_pop {
        (extended(f.nodes@[x].dtv@, l), f.nodes@[y].dtv@)
    } else {
        (f.nodes@[x].dtv@, extended(f.nodes@[y].dtv@, l))
    }
}

/// Some label derivation gives the pair `p`.
pub open spec fn derived_by_label(f: &FSA, iv: Seq<Seq<char>>, p: (DerivedTypeVarView, DerivedTypeVarView)) -> bool {
    exists|x: int, y: int, e: LabelEdge, is_pop: bool|
        #[trigger] label_derivation(f, iv, x, y, e, is_pop) && p == label_pair(f, x, y, e.label, is_pop)
}

fn with_label(d: &DerivedTypeVar, l: FieldLabel) -> (r: DerivedTypeVar)
    ensures
        r@ == extended(d@, l),
{
    let mut r = d.duplicate();
    r.add_field_label(l);
    r
}

impl FSA {
    fn derive_through(&self, es: &Vec<LabelEdge>, is_pop: bool, ep: &Vec<bool>, iv: Ghost<Seq<Seq<char>>>, out: &mut Vec<SubtypeConstraint>)
        requires
            self.wf(),
            es@ == (if is_pop { self.pops@ } else { self.pushes@ }),
            ep@ == endpoint_flags(self, iv@),
            forall|k: int| 0 <= k < old(out)@.len() ==> derived_by_label(self, iv@, #[trigger] pairs_of(old(out)@)[k]),
        ensures
            pairs_of(old(out)@).is_prefix_of(pairs_of(final(out)@)),
            forall|k: int| 0 <= k < final(out)@.len() ==> derived_by_label(self, iv@, #[trigger] pairs_of(final(out)@)[k]),
            forall|x: int, y: int, e: LabelEdge| #[trigger] label_derivation(self, iv@, x, y, e, is_pop)
                ==> pairs_of(final(out)@).contains(label_pair(self, x, y, e.label, is_pop)),
    {
        let n = self.nodes.len();
        let ghost out0 = pairs_of(out@);
        let mut j: usize = 0;
        while j < es.len()
            invariant
                self.wf(),
                n == self.nodes@.len(),
                es@ == (if is_pop { self.pops@ } else { self.pushes@ }),
                ep@ == endpoint_flags(self, iv@),
                j <= es@.len(),
                out0.is_prefix_of(pairs_of(out@)),
                forall|k: int| 0 <= k < out@.len() ==> derived_by_label(self, iv@, #[trigger] pairs_of(out@)[k]),
                forall|x: int, y: int, e: LabelEdge| #[trigger] label_derivation(self, iv@, x, y, e, is_pop)
                    && (exists|q: int| 0 <= q < j && es@[q] == e)
                    ==> pairs_of(out@).contains(label_pair(self, x, y, e.label, is_pop)),
            decreases es@.len() - j,
        {
            let e = es[j];
            assert(es@.contains(e));
            assert(e.src < n && e.dst < n) by {
                let q = choose|q: int| 0 <= q < es@.len() && es@[q] == e;
                if is_pop { assert(self.pops@[q] == e); } else { assert(self.pushes@[q] == e); }
            }
            assert(mat(self.eps@)[e.dst as int] == self.eps@[e.dst as int]@);
            let mut x: usize = 0;
            while x < n
                invariant
                    self.wf(),
                    n == self.nodes@.len(),
                    es@ == (if is_pop { self.pops@ } else { self.pushes@ }),
                    ep@ == endpoint_flags(self, iv@),
                    j < es@.len(),
                    e == es@[j as int],
                    e.src < n && e.dst < n,
                    mat(self.eps@)[e.dst as int] == self.eps@[e.dst as int]@,
                    x <= n,
                    out0.is_prefix_of(pairs_of(out@)),
                    forall|k: int| 0 <= k < out@.len() ==> derived_by_label(self, iv@, #[trigger] pairs_of(out@)[k]),
                    forall|x2: int, y: int, e2: LabelEdge| #[trigger] label_derivation(self, iv@, x2, y, e2, is_pop)
                        && (exists|q: int| 0 <= q < j && es@[q] == e2)
                        ==> pairs_of(out@).contains(label_pair(self, x2, y, e2.label, is_pop)),
                    forall|x2: int, y: int| 0 <= x2 < x && #[trigger] label_derivation(self, iv@, x2, y, e, is_pop)
                        ==> pairs_of(out@).contains(label_pair(self, x2, y, e.label, is_pop)),
                decreases n - x,
            {
                assert(mat(self.eps@)[x as int] == self.eps@[x as int]@);
                let x_ok = ep[x] && (x == e.src || self.eps[x][e.src]);
                let mut y: usize = 0;
                while y < n
                    invariant
                        self.wf(),
                        n == self.nodes@.len(),
                        es@ == (if is_pop { self.pops@ } else { self.pushes@ }),
                        ep@ == endpoint_flags(self, iv@),
                        j < es@.len(),
                        e == es@[j as int],
                        e.src < n && e.dst < n,
                        mat(self.eps@)[e.dst as int] == self.eps@[e.dst as int]@,
                        x < n,
                        y <= n,
                        x_ok == (is_endpoint(self, x as int, iv@) && eps_or_same(self, x as int, e.src as int)),
                        out0.is_prefix_of(pairs_of(out@)),
                        forall|k: int| 0 <= k < out@.len() ==> derived_by_label(self, iv@, #[trigger] pairs_of(out@)[k]),
                        forall|x2: int, y2: int, e2: LabelEdge| #[trigger] label_derivation(self, iv@, x2, y2, e2, is_pop)
                            && (exists|q: int| 0 <= q < j && es@[q] == e2)
                            ==> pairs_of(out@).contains(label_pair(self, x2, y2, e2.label, is_pop)),
                        forall|x2: int, y2: int| 0 <= x2 < x && #[trigger] label_derivation(self, iv@, x2, y2, e, is_pop)
                            ==> pairs_of(out@).contains(label_pair(self, x2, y2, e.label, is_pop)),
                        forall|y2: int| 0 <= y2 < y && #[trigger] label_derivation(self, iv@, x as int, y2, e, is_pop)
                            ==> pairs_of(out@).contains(label_pair(self, x as int, y2, e.label, is_pop)),
                    decreases n - y,
                {
                    if x_ok && ep[y] && (e.dst == y || self.eps[e.dst][y]) {
                        let c = if is_pop {
                            SubtypeConstraint::new(with_label(&self.nodes[x].dtv, e.label), self.nodes[y].dtv.duplicate())
                        } else {
                            SubtypeConstraint::new(self.nodes[x].dtv.duplicate(), with_label(&self.nodes[y].dtv, e.label))
                        };
                        let ghost before = pairs_of(out@);
                        out.push(c);
                        proof {
                            assert(pairs_of(out@) =~= before.push(c@));
                            assert(label_derivation(self, iv@, x as int, y as int, e, is_pop));
                            assert(c@ == label_pair(self, x as int, y as int, e.label, is_pop));
                            assert(pairs_of(out@)[before.len() as int] == c@);
                            assert forall|k: int| 0 <= k < out@.len() implies derived_by_label(self, iv@, #[trigger] pairs_of(out@)[k]) by {
                                if k < before.len() {
                                    assert(pairs_of(out@)[k] == before[k]);
                                }
                            }
                            assert forall|x2: int, y2: int, e2: LabelEdge| #[trigger] label_derivation(self, iv@, x2, y2, e2, is_pop)
                                && (exists|q: int| 0 <= q < j && es@[q] == e2)
                                implies pairs_of(out@).contains(label_pair(self, x2, y2, e2.label, is_pop)) by {
                                let q = choose|q: int| 0 <= q < before.len() && before[q] == label_pair(self, x2, y2, e2.label, is_pop);
                                assert(pairs_of(out@)[q] == before[q]);
                            }
                            assert forall|x2: int, y2: int| 0 <= x2 < x && #[trigger] label_derivation(self, iv@, x2, y2, e, is_pop)
                                implies pairs_of(out@).contains(label_pair(self, x2, y2, e.label, is_pop)) by {
                                let q = choose|q: int| 0 <= q < before.len() && before[q] == label_pair(self, x2, y2, e.label, is_pop);
                                assert(pairs_of(out@)[q] == before[q]);
                            }
                            assert forall|y2: int| 0 <= y2 < y + 1 && #[trigger] label_derivation(self, iv@, x as int, y2, e, is_pop)
                                implies pairs_of(out@).contains(label_pair(self, x as int, y2, e.label, is_pop)) by {
                                if y2 < y {
                                    let q = choose|q: int| 0 <= q < before.len() && before[q] == label_pair(self, x as int, y2, e.label, is_pop);
                                    assert(pairs_of(out@)[q] == before[q]);
                                }
                            }
                            assert(out0.is_prefix_of(pairs_of(out@)));
                        }
                    }
                    y = y + 1;
                }
                assert forall|x2: int, y2: int| 0 <= x2 < x + 1 && #[trigger] label_derivation(self, iv@, x2, y2, e, is_pop)
                    implies pairs_of(out@).contains(label_pair(self, x2, y2, e.label, is_pop)) by {
                    if x2 == x {
                        assert(0 <= y2 < n);
                    }
                }
                x = x + 1;
            }
            assert forall|x2: int, y2: int, e2: LabelEdge| #[trigger] label_derivation(self, iv@, x2, y2, e2, is_pop)
                && (exists|q: int| 0 <= q < j + 1 && es@[q] == e2)
                implies pairs_of(out@).contains(label_pair(self, x2, y2, e2.label, is_pop)) by {
                let q = choose|q: int| 0 <= q < j + 1 && es@[q] == e2;
                if q < j {
                } else {
                    assert(e2 == e);
                    assert(0 <= x2 < n);
                }
            }
            j = j + 1;
        }
        assert forall|x: int, y: int, e: LabelEdge| #[trigger] label_derivation(self, iv@, x, y, e, is_pop)
            implies pairs_of(out@).contains(label_pair(self, x, y, e.label, is_pop)) by {
            assert(es@.contains(e));
        }
    }

    /// The constraints of the paths between endpoints through one pop or one
    /// push: `x.l <= y` where `x` reaches a pop of `l` whose target reaches
    /// `y`, and `x <= y.l` for a push; pops first, each in edge order.
    pub fn walk_field_constraints(&self, interesting: &Vec<TypeVariable>) -> (r: Vec<SubtypeConstraint>)
        requires
            self.wf(),
        ensures
            forall|k: int| 0 <= k < r@.len() ==> derived_by_label(self, var_names(interesting@), #[trigger] pairs_of(r@)[k]),
            forall|x: int, y: int, e: LabelEdge, is_pop: bool| #[trigger] label_derivation(self, var_names(interesting@), x, y, e, is_pop)
                ==> pairs_of(r@).contains(label_pair(self, x, y, e.label, is_pop)),
    {
        let ghost iv = var_names(interesting@);
        let ep = self.endpoints(interesting);
        let mut out: Vec<SubtypeConstraint> = Vec::new();
        self.derive_through(&self.pops, true, &ep, Ghost(iv), &mut out);
        let ghost mid = pairs_of(out@);
        self.derive_through(&self.pushes, false, &ep, Ghost(iv), &mut out);
        proof {
            assert forall|x: int, y: int, e: LabelEdge, is_pop: bool| #[trigger] label_derivation(self, iv, x, y, e, is_pop)
                implies pairs_of(out@).contains(label_pair(self, x, y, e.label, is_pop)) by {
                if is_pop {
                    assert(mid.contains(label_pair(self, x, y, e.label, is_pop)));
                    let q = choose|q: int| 0 <= q < mid.len() && mid[q] == label_pair(self, x, y, e.label, is_pop);
                    assert(pairs_of(out@)[q] == mid[q]);
                }
            }
        }
        out
    }
}

} // verus!
