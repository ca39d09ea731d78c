//! Partitioning of fields into non-overlapping structures.
use vstd::prelude::*;
use crate::lowering::{Field, fld_end, strictly_contains, overlaps, non_overlapping};

verus! {

/// A structure under construction: fields placed in ascending order, none
/// overlapping another.
struct Classroom {
    scheduled: Vec<Field>,
}

/// The first free byte of a structure: the end of its last field.
pub open spec fn next_offset(s: Seq<Field>) -> int {
    if s.len() == 0 {
        0
    } else {
        fld_end(s.last())
    }
}

impl Classroom {
    fn new() -> (r: Classroom)
        ensures
            r.scheduled@.len() == 0,
    {
        Classroom { scheduled: Vec::new() }
    }

    fn compute_upper_bound_exclusive(base: usize, size: usize) -> (r: u128)
        ensures
            r == base + size / 8,
    {
        base as u128 + (size / 8) as u128
    }

    fn compute_fld_upper_bound_exlcusive(fld: &Field) -> (r: u128)
        ensures
            r == fld_end(*fld),
    {
        Classroom::compute_upper_bound_exclusive(fld.byte_offset, fld.bit_sz)
    }

    fn get_next_scheduluable_offset(&self) -> (r: u128)
        ensures
            r == next_offset(self.scheduled@),
    {
        if self.scheduled.len() == 0 {
            0
        } else {
            Classroom::compute_fld_upper_bound_exlcusive(&self.scheduled[self.scheduled.len() - 1])
        }
    }

    fn superscedes_fld(&self, fld: &Field) -> (r: bool)
        ensures
            r == exists|i: int|
                0 <= i < self.scheduled@.len() && strictly_contains(
                    #[trigger] self.scheduled@[i],
                    *fld,
                ),
    {
        let mut i: usize = 0;
        while i < self.scheduled.len()
            invariant
                i <= self.scheduled@.len(),
                forall|j: int| 0 <= j < i ==> !strictly_contains(#[trigger] self.scheduled@[j], *fld),
            decreases self.scheduled@.len() - i,
        {
            let g = self.scheduled[i];
            if g.byte_offset < fld.byte_offset && Classroom::compute_fld_upper_bound_exlcusive(fld)
                < Classroom::compute_fld_upper_bound_exlcusive(&g) {
                return true;
            }
            i = i + 1;
        }
        false
    }

    fn schedule_fld(&mut self, fld: Field) -> (r: bool)
        requires
            non_overlapping(old(self).scheduled@),
        ensures
            non_overlapping(final(self).scheduled@),
            r == (next_offset(old(self).scheduled@) <= fld.byte_offset),
            r ==> final(self).scheduled@ == old(self).scheduled@.push(fld),
            !r ==> final(self).scheduled@ == old(self).scheduled@,
    {
        if self.get_next_scheduluable_offset() > fld.byte_offset as u128 {
            return false;
        }
        let ghost s = self.scheduled@;
        self.scheduled.push(fld);
        assert forall|i: int, j: int|
            0 <= i < j < self.scheduled@.len() implies fld_end(#[trigger] self.scheduled@[i])
            <= #[trigger] self.scheduled@[j].byte_offset by {
            if j == s.len() && i < s.len() - 1 {
                assert(fld_end(s[i]) <= s[s.len() - 1].byte_offset);
            }
        }
        true
    }
}

/// Where `f` goes in the sorted sequence `r`: before the first field that
/// starts after it.
pub open spec fn insert_pos(r: Seq<Field>, f: Field) -> int
    decreases r.len(),
{
    if r.len() == 0 || r[0].byte_offset > f.byte_offset {
        0
    } else {
        1 + insert_pos(r.drop_first(), f)
    }
}

/// The fields sorted by offset, by insertion; equal offsets keep their order.
pub open spec fn sort_spec(s: Seq<Field>) -> Seq<Field>
    decreases s.len(),
{
    if s.len() == 0 {
        Seq::empty()
    } else {
        let r = sort_spec(s.drop_last());
        r.insert(insert_pos(r, s.last()), s.last())
    }
}

proof fn lemma_insert_pos(r: Seq<Field>, f: Field, pos: int)
    requires
        0 <= pos <= r.len(),
        forall|j: int| 0 <= j < pos ==> (#[trigger] r[j]).byte_offset <= f.byte_offset,
        pos < r.len() ==> r[pos].byte_offset > f.byte_offset,
    ensures
        insert_pos(r, f) == pos,
    decreases pos,
{
    if pos > 0 {
        assert(r[0].byte_offset <= f.byte_offset);
        assert forall|j: int| 0 <= j < pos - 1 implies (#[trigger] r.drop_first()[j]).byte_offset <= f.byte_offset by {
            assert(r.drop_first()[j] == r[j + 1]);
        }
        if pos - 1 < r.drop_first().len() {
            assert(r.drop_first()[pos - 1] == r[pos]);
        }
        lemma_insert_pos(r.drop_first(), f, pos - 1);
    }
}

/// The index of the structure with the least next free offset among the
/// first `n`, the earliest on a tie.
pub open spec fn min_room(rs: Seq<Seq<Field>>, n: int) -> int
    decreases n,
{
    if n <= 1 {
        0
    } else {
        let m = min_room(rs, n - 1);
        if next_offset(rs[n - 1]) < next_offset(rs[m]) { n - 1 } else { m }
    }
}

/// One step of the scheduling: a field strictly inside a placed field is
/// dropped; otherwise it goes at the end of the structure with the least
/// next free offset (earliest on a tie) when that offset is not past the
/// field's start, and into a new structure otherwise.
pub open spec fn sched_step(rs: Seq<Seq<Field>>, f: Field) -> Seq<Seq<Field>> {
    if covered(rs, f) {
        rs
    } else if rs.len() > 0 && next_offset(rs[min_room(rs, rs.len() as int)]) <= f.byte_offset {
        let t = min_room(rs, rs.len() as int);
        rs.update(t, rs[t].push(f))
    } else {
        rs.push(seq![f])
    }
}

/// The structures that scheduling the fields `s`, in this order, makes.
pub open spec fn sched_spec(s: Seq<Field>) -> Seq<Seq<Field>>
    decreases s.len(),
{
    if s.len() == 0 {
        Seq::empty()
    } else {
        sched_step(sched_spec(s.drop_last()), s.last())
    }
}

/// Offsets never decrease along the sequence.
pub open spec fn sorted_by_offset(s: Seq<Field>) -> bool {
    forall|i: int, j: int|
        0 <= i < j < s.len() ==> (#[trigger] s[i]).byte_offset <= (#[trigger] s[j]).byte_offset
}

/// The fields in ascending order of offset; fields with equal offsets keep
/// their order.
fn sort_by_offset(fields: &Vec<Field>) -> (r: Vec<Field>)
    ensures
        sorted_by_offset(r@),
        r@.len() == fields@.len(),
        forall|x: Field| #[trigger] r@.contains(x) <==> fields@.contains(x),
        r@ == sort_spec(fields@),
{
    let mut r: Vec<Field> = Vec::new();
    let mut i: usize = 0;
    while i < fields.len()
        invariant
            i <= fields@.len(),
            r@.len() == i,
            sorted_by_offset(r@),
            forall|x: Field| #[trigger] r@.contains(x) <==> fields@.take(i as int).contains(x),
            r@ == sort_spec(fields@.take(i as int)),
        decreases fields@.len() - i,
    {
        let f = fields[i];
        let mut pos: usize = 0;
        while pos < r.len() && r[pos].byte_offset <= f.byte_offset
            invariant
                pos <= r@.len(),
                forall|j: int| 0 <= j < pos ==> (#[trigger] r@[j]).byte_offset <= f.byte_offset,
            decreases r@.len() - pos,
        {
            pos = pos + 1;
        }
        let ghost old_r = r@;
        proof {
            lemma_insert_pos(old_r, f, pos as int);
            assert(fields@.take(i + 1).drop_last() =~= fields@.take(i as int));
            assert(fields@.take(i + 1).last() == f);
        }
        r.insert(pos, f);
        assert(r@ == old_r.insert(pos as int, f));
        assert forall|a: int, b: int| 0 <= a < b < r@.len() implies (#[trigger] r@[a]).byte_offset
            <= (#[trigger] r@[b]).byte_offset by {
            if a < pos && b > pos {
                assert(r@[a] == old_r[a] && r@[b] == old_r[b - 1]);
            } else if a < pos && b == pos {
            } else if a < pos {
                assert(r@[a] == old_r[a] && r@[b] == old_r[b]);
            } else if a == pos {
                assert(r@[b] == old_r[b - 1]);
            } else {
                assert(r@[a] == old_r[a - 1] && r@[b] == old_r[b - 1]);
            }
        }
        assert(fields@.take(i + 1) =~= fields@.take(i as int).push(f));
        assert forall|x: Field| #[trigger] r@.contains(x) <==> fields@.take(i + 1).contains(x) by {
            if r@.contains(x) {
                let j = choose|j: int| 0 <= j < r@.len() && r@[j] == x;
                if j < pos {
                    assert(old_r[j] == x);
                    assert(old_r.contains(x));
                } else if j > pos {
                    assert(old_r[j - 1] == x);
                    assert(old_r.contains(x));
                } else {
                    assert(fields@.take(i + 1)[i as int] == x);
                }
            }
            if fields@.take(i + 1).contains(x) {
                if x == f {
                    assert(r@[pos as int] == x);
                } else {
                    let k = choose|k: int| 0 <= k < i + 1 && #[trigger] fields@.take(i + 1)[k] == x;
                    assert(fields@.take(i + 1)[k] == fields@[k]);
                    assert(k < i);
                    assert(fields@.take(i as int)[k] == x);
                    assert(old_r.contains(x));
                    let j = choose|j: int| 0 <= j < old_r.len() && old_r[j] == x;
                    if j < pos {
                        assert(r@[j] == x);
                    } else {
                        assert(r@[j + 1] == x);
                    }
                }
            }
        }
        i = i + 1;
    }
    assert(fields@.take(i as int) =~= fields@);
    r
}

/// Some structure holds `f`.
pub open spec fn placed(rs: Seq<Seq<Field>>, f: Field) -> bool {
    exists|r: int, i: int| 0 <= r < rs.len() && 0 <= i < rs[r].len() && #[trigger] rs[r][i] == f
}

/// Some structure holds a field that strictly contains `f`.
pub open spec fn covered(rs: Seq<Seq<Field>>, f: Field) -> bool {
    exists|r: int, i: int|
        0 <= r < rs.len() && 0 <= i < rs[r].len() && strictly_contains(#[trigger] rs[r][i], f)
}

/// The field sequences of a sequence of vectors.
pub open spec fn structures_of(v: Seq<Vec<Field>>) -> Seq<Seq<Field>> {
    v.map_values(|x: Vec<Field>| x@)
}

spec fn rooms_view(v: Seq<Classroom>) -> Seq<Seq<Field>> {
    v.map_values(|c: Classroom| c.scheduled@)
}

/// Every structure of `rs` is a prefix of the structure at the same place in `rs2`.
spec fn grows_into(rs: Seq<Seq<Field>>, rs2: Seq<Seq<Field>>) -> bool {
    &&& rs.len() <= rs2.len()
    &&& forall|r: int| 0 <= r < rs.len() ==> rs[r].len() <= (#[trigger] rs2[r]).len()
    &&& forall|r: int, i: int| 0 <= r < rs.len() && 0 <= i < rs[r].len() ==> #[trigger] rs2[r][i] == rs[r][i]
}

proof fn lemma_grows_keeps(rs: Seq<Seq<Field>>, rs2: Seq<Seq<Field>>, f: Field)
    requires
        grows_into(rs, rs2),
    ensures
        placed(rs, f) ==> placed(rs2, f),
        covered(rs, f) ==> covered(rs2, f),
{
    if placed(rs, f) {
        let (r, i) = choose|r: int, i: int| 0 <= r < rs.len() && 0 <= i < rs[r].len() && #[trigger] rs[r][i] == f;
        assert(rs2[r][i] == f);
    }
    if covered(rs, f) {
        let (r, i) = choose|r: int, i: int|
            0 <= r < rs.len() && 0 <= i < rs[r].len() && strictly_contains(#[trigger] rs[r][i], f);
        assert(rs2[r][i] == rs[r][i]);
    }
}

proof fn lemma_append_to(rs: Seq<Seq<Field>>, t: int, f: Field)
    requires
        0 <= t < rs.len(),
    ensures
        grows_into(rs, rs.update(t, rs[t].push(f))),
        placed(rs.update(t, rs[t].push(f)), f),
        forall|x: Field| #[trigger] placed(rs.update(t, rs[t].push(f)), x) ==> placed(rs, x) || x == f,
{
    let rs2 = rs.update(t, rs[t].push(f));
    assert(rs2[t][rs[t].len() as int] == f);
    assert forall|x: Field| #[trigger] placed(rs2, x) implies placed(rs, x) || x == f by {
        let (r, i) = choose|r: int, i: int| 0 <= r < rs2.len() && 0 <= i < rs2[r].len() && #[trigger] rs2[r][i] == x;
        if r != t || i < rs[t].len() {
            assert(rs[r][i] == x);
        }
    }
}

proof fn lemma_open_room(rs: Seq<Seq<Field>>, f: Field)
    ensures
        grows_into(rs, rs.push(seq![f])),
        placed(rs.push(seq![f]), f),
        forall|x: Field| #[trigger] placed(rs.push(seq![f]), x) ==> placed(rs, x) || x == f,
{
    let rs2 = rs.push(seq![f]);
    assert(rs2[rs.len() as int][0] == f);
    assert forall|x: Field| #[trigger] placed(rs2, x) implies placed(rs, x) || x == f by {
        let (r, i) = choose|r: int, i: int| 0 <= r < rs2.len() && 0 <= i < rs2[r].len() && #[trigger] rs2[r][i] == x;
        if r < rs.len() {
            assert(rs[r][i] == x);
        }
    }
}

/// Partitions fields into structures whose fields do not overlap. A field
/// that lies strictly inside another is left out; every other field is
/// placed. Fields are taken in ascending order of offset; each goes into the
/// open structure whose next free offset is least (the earliest such one on a
/// tie) when it fits there, and into a new structure otherwise.
pub fn schedule_fields(fields: &Vec<Field>) -> (r: Vec<Vec<Field>>)
    ensures
        r@.len() <= fields@.len(),
        forall|k: int| 0 <= k < r@.len() ==> non_overlapping(#[trigger] r@[k]@) && r@[k]@.len() > 0,
        forall|f: Field| #[trigger] placed(structures_of(r@), f) ==> fields@.contains(f),
        forall|f: Field| #[trigger] fields@.contains(f) ==> placed(structures_of(r@), f) || covered(structures_of(r@), f),
        forall|f: Field, g: Field| fields@.contains(g) && #[trigger] strictly_contains(g, f) ==> !placed(structures_of(r@), f),
        structures_of(r@) == sched_spec(sort_spec(fields@)),
{
    let s = sort_by_offset(fields);
    let mut rooms: Vec<Classroom> = Vec::new();
    let mut k: usize = 0;
    while k < s.len()
        invariant
            k <= s@.len(),
            s@.len() == fields@.len(),
            rooms@.len() <= k,
            sorted_by_offset(s@),
            forall|x: Field| #[trigger] s@.contains(x) <==> fields@.contains(x),
            forall|r: int| 0 <= r < rooms@.len() ==> non_overlapping(#[trigger] rooms@[r].scheduled@) && rooms@[r].scheduled@.len() > 0,
            forall|f: Field| #[trigger] placed(rooms_view(rooms@), f) ==> s@.contains(f),
            forall|j: int| 0 <= j < k ==> placed(rooms_view(rooms@), #[trigger] s@[j]) || covered(rooms_view(rooms@), s@[j]),
            forall|f: Field, g: Field| s@.contains(g) && #[trigger] strictly_contains(g, f) ==> !placed(rooms_view(rooms@), f),
            rooms_view(rooms@) == sched_spec(s@.take(k as int)),
        decreases s@.len() - k,
    {
        let f = s[k];
        let ghost rv = rooms_view(rooms@);
        proof {
            assert(s@.take(k + 1).drop_last() =~= s@.take(k as int));
            assert(s@.take(k + 1).last() == f);
        }
        let mut sup = false;
        let mut t: usize = 0;
        while t < rooms.len() && !sup
            invariant
                t <= rooms@.len(),
                rv == rooms_view(rooms@),
                sup ==> covered(rv, f),
                !sup ==> forall|r: int, i: int| 0 <= r < t && 0 <= i < rv[r].len() ==> !strictly_contains(#[trigger] rv[r][i], f),
            decreases rooms@.len() - t + if sup { 0int } else { 1int },
        {
            assert(rv[t as int] == rooms@[t as int].scheduled@);
            if rooms[t].superscedes_fld(&f) {
                proof {
                    assert(rv[t as int] == rooms@[t as int].scheduled@);
                    let i = choose|i: int|
                        0 <= i < rooms@[t as int].scheduled@.len() && strictly_contains(
                            #[trigger] rooms@[t as int].scheduled@[i],
                            f,
                        );
                    assert(strictly_contains(rv[t as int][i], f));
                }
                sup = true;
            } else {
                t = t + 1;
            }
        }
        if !sup {
            assert forall|g: Field| s@.contains(g) implies !(#[trigger] strictly_contains(g, f)) by {
                if strictly_contains(g, f) {
                    let j = choose|j: int| 0 <= j < s@.len() && s@[j] == g;
                    if j >= k {
                        assert(s@[k as int].byte_offset <= s@[j].byte_offset);
                    }
                    if placed(rv, g) {
                        let (r, i) = choose|r: int, i: int| 0 <= r < rv.len() && 0 <= i < rv[r].len() && #[trigger] rv[r][i] == g;
                        assert(strictly_contains(rv[r][i], f));
                    } else {
                        let (r, i) = choose|r: int, i: int|
                            0 <= r < rv.len() && 0 <= i < rv[r].len() && strictly_contains(#[trigger] rv[r][i], g);
                        assert(strictly_contains(rv[r][i], f));
                    }
                }
            }
            assert(!covered(rv, f));
            let mut top: usize = 0;
            let mut u: usize = 1;
            while u < rooms.len()
                invariant
                    1 <= u,
                    rv == rooms_view(rooms@),
                    rooms@.len() > 0 ==> top < rooms@.len() && u <= rooms@.len() && top == min_room(rv, u as int),
                decreases rooms@.len() - u,
            {
                assert(rv[u as int] == rooms@[u as int].scheduled@);
                assert(rv[top as int] == rooms@[top as int].scheduled@);
                if rooms[u].get_next_scheduluable_offset() < rooms[top].get_next_scheduluable_offset() {
                    top = u;
                }
                u = u + 1;
            }
            if rooms.len() > 0 {
                assert(rv[top as int] == rooms@[top as int].scheduled@);
            }
            let mut placed_now = false;
            if top < rooms.len() {
                let mut c = Classroom { scheduled: rooms[top].scheduled.clone() };
                if c.schedule_fld(f) {
                    proof {
                        lemma_append_to(rv, top as int, f);
                    }
                    rooms.set(top, c);
                    assert(rooms_view(rooms@) =~= rv.update(top as int, rv[top as int].push(f)));
                    placed_now = true;
                }
            }
            if !placed_now {
                let mut c = Classroom::new();
                let ok = c.schedule_fld(f);
                assert(ok);
                proof {
                    lemma_open_room(rv, f);
                }
                rooms.push(c);
                assert(c.scheduled@ =~= seq![f]);
                assert(rooms_view(rooms@) =~= rv.push(seq![f]));
            }
            assert forall|j: int| 0 <= j <= k implies placed(rooms_view(rooms@), #[trigger] s@[j]) || covered(rooms_view(rooms@), s@[j]) by {
                lemma_grows_keeps(rv, rooms_view(rooms@), s@[j]);
            }
            assert(rooms_view(rooms@) == sched_step(rv, f));
        } else {
            assert(covered(rooms_view(rooms@), s@[k as int]));
            assert(rooms_view(rooms@) == sched_step(rv, f));
        }
        k = k + 1;
    }
    let mut out: Vec<Vec<Field>> = Vec::new();
    let mut r: usize = 0;
    while r < rooms.len()
        invariant
            r <= rooms@.len(),
            out@.len() == r,
            forall|q: int| 0 <= q < r ==> (#[trigger] out@[q])@ == rooms@[q].scheduled@,
        decreases rooms@.len() - r,
    {
        out.push(rooms[r].scheduled.clone());
        r = r + 1;
    }
    assert(structures_of(out@) =~= rooms_view(rooms@));
    assert(s@.take(k as int) =~= s@);
    assert forall|f: Field| #[trigger] fields@.contains(f) implies placed(structures_of(out@), f)
        || covered(structures_of(out@), f) by {
        assert(s@.contains(f));
        let j = choose|j: int| 0 <= j < s@.len() && s@[j] == f;
        assert(placed(rooms_view(rooms@), s@[j]) || covered(rooms_view(rooms@), s@[j]));
    }
    out
}

/// Fields that do not overlap pairwise.
pub proof fn lemma_non_overlapping_disjoint(s: Seq<Field>)
    requires
        non_overlapping(s),
    ensures
        forall|i: int, j: int|
            0 <= i < s.len() && 0 <= j < s.len() && i != j ==> !overlaps(#[trigger] s[i], #[trigger] s[j]),
{
}

} // verus!
