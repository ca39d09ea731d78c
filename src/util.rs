//! Helpers around the constraint set and optional debug output.
use vstd::prelude::*;
use crate::constraints::{ConstraintSet, SubtypeConstraint, TyConstraint, subtys_of};

verus! {

/// Where debug output goes: a directory, or nowhere.
#[derive(Clone, Debug, Default)]
pub struct FileDebugLogger {
    pub debug_dir: Option<String>,
}

impl FileDebugLogger {
    /// A logger writing into `debug_dir`, or a silent one where it is `None`.
    pub fn new(debug_dir: Option<String>) -> (r: FileDebugLogger)
        ensures
            r.debug_dir == debug_dir,
    {
        FileDebugLogger { debug_dir }
    }

    /// Whether output will be written.
    pub fn is_logging(&self) -> (r: bool)
        ensures
            r == self.debug_dir.is_some(),
    {
        self.debug_dir.is_some()
    }
}

fn contains_subty(v: &Vec<SubtypeConstraint>, c: &SubtypeConstraint) -> (r: bool)
    ensures
        r == v@.map_values(|x: SubtypeConstraint| x@).contains(c@),
{
    let mut i: usize = 0;
    while i < v.len()
        invariant
            i <= v@.len(),
            forall|j: int| 0 <= j < i ==> v@[j]@ != c@,
        decreases v@.len() - i,
    {
        if v[i] == *c {
            assert(v@.map_values(|x: SubtypeConstraint| x@)[i as int] == c@);
            return true;
        }
        i = i + 1;
    }
    assert(!v@.map_values(|x: SubtypeConstraint| x@).contains(c@));
    false
}

/// The subtype constraints of a set, without repetition, in the order in
/// which they first occur.
pub fn constraint_set_to_subtys(cs: &ConstraintSet) -> (r: Vec<SubtypeConstraint>)
    ensures
        r@.map_values(|x: SubtypeConstraint| x@) == subtys_of(cs.constraints@),
{
    let mut out: Vec<SubtypeConstraint> = Vec::new();
    let mut i: usize = 0;
    while i < cs.constraints.len()
        invariant
            i <= cs.constraints@.len(),
            out@.map_values(|x: SubtypeConstraint| x@) == subtys_of(
                cs.constraints@.take(i as int),
            ),
        decreases cs.constraints@.len() - i,
    {
        assert(cs.constraints@.take(i + 1).drop_last() =~= cs.constraints@.take(i as int));
        match &cs.constraints[i] {
            TyConstraint::SubTy(c) => {
                if !contains_subty(&out, c) {
                    let ghost before = out@;
                    out.push(c.duplicate());
                    assert(out@.map_values(|x: SubtypeConstraint| x@) =~= before.map_values(
                        |x: SubtypeConstraint| x@,
                    ).push(c@));
                }
            },
            TyConstraint::AddCons(_) => {},
        }
        i = i + 1;
    }
    assert(cs.constraints@.take(i as int) =~= cs.constraints@);
    out
}

/// The elements of `v` in reverse order.
pub(crate) fn reversed<T>(v: Vec<T>) -> (r: Vec<T>)
    ensures
        r@ == v@.reverse(),
{
    let ghost v0 = v@;
    let mut v = v;
    let mut r: Vec<T> = Vec::new();
    while v.len() > 0
        invariant
            v0 == v@ + r@.reverse(),
        decreases v@.len(),
    {
        let c = v.pop().unwrap();
        let ghost before = r@;
        r.push(c);
        assert(r@.reverse() =~= seq![c] + before.reverse());
        assert(v@ + r@.reverse() =~= (v@ + seq![c]) + before.reverse());
    }
    assert(v@ + r@.reverse() =~= r@.reverse());
    assert(r@.reverse().reverse() =~= r@);
    r
}

} // verus!
