//! Selection of the interesting type variables: those whose names match a
//! pattern, by default `^sub_(\d+)$`.
use vstd::prelude::*;
use crate::constraints::{SubtypeConstraint, TypeVariable};

verus! {

#[verifier::external_type_specification]
#[verifier::external_body]
pub struct ExRegexError(regex::Error);

/// The pattern that selects subprocedure variables.
pub const DEFAULT_PATTERN: &'static str = "^sub_(\\d+)$";

/// Whether `pattern` compiles as a regular expression (under the default size limit).
pub uninterp spec fn pattern_compiles(pattern: Seq<char>) -> bool;

/// Whether the regular expression `pattern` matches somewhere in `s`.
pub uninterp spec fn pattern_matches(pattern: Seq<char>, s: Seq<char>) -> bool;

/// Relies on `regex::Regex::new`, which fails exactly on patterns that do not
/// compile, and on `regex::Regex::is_match`, true exactly when the expression
/// matches somewhere in the haystack.
#[verifier::external_body]
fn regex_is_match(pattern: &str, s: &str) -> (r: Result<bool, regex::Error>)
    ensures
        (r is Ok) == pattern_compiles(pattern@),
        r is Ok ==> r->Ok_0 == pattern_matches(pattern@, s@),
{
    let re = regex::Regex::new(pattern)?;
    Ok(re.is_match(s))
}

/// Why a selection failed.
#[derive(Clone, Copy, Debug, PartialEq, Eq, Structural)]
pub enum SelectionError {
    /// The pattern is not a valid regular expression.
    InvalidPattern,
}

/// The names picked from the sides of the constraints, in the order
/// lhs then rhs of each constraint, keeping a name the first time its flag is
/// set and it is not already picked.
pub open spec fn selected(cons: Seq<SubtypeConstraint>, lm: Seq<bool>, rm: Seq<bool>) -> Seq<Seq<char>>
    decreases cons.len(),
{
    if cons.len() == 0 || lm.len() < cons.len() || rm.len() < cons.len() {
        Seq::empty()
    } else {
        let n = cons.len() - 1;
        let rest = selected(cons.drop_last(), lm.take(n), rm.take(n));
        let l = cons.last().lhs@.base;
        let r = cons.last().rhs@.base;
        let with_l = if lm[n] && !rest.contains(l) { rest.push(l) } else { rest };
        if rm[n] && !with_l.contains(r) { with_l.push(r) } else { with_l }
    }
}

/// The names of a sequence of variables.
pub open spec fn names(v: Seq<TypeVariable>) -> Seq<Seq<char>> {
    v.map_values(|t: TypeVariable| t@)
}

fn contains_name(v: &Vec<TypeVariable>, t: &TypeVariable) -> (r: bool)
    ensures
        r == names(v@).contains(t@),
{
    let mut i: usize = 0;
    while i < v.len()
        invariant
            i <= v@.len(),
            forall|k: int| 0 <= k < i ==> v@[k]@ != t@,
        decreases v@.len() - i,
    {
        if v[i] == *t {
            assert(names(v@)[i as int] == t@);
            return true;
        }
        i = i + 1;
    }
    false
}

fn push_new(v: &mut Vec<TypeVariable>, t: &TypeVariable)
    ensures
        names(final(v)@) == if names(old(v)@).contains(t@) { names(old(v)@) } else { names(old(v)@).push(t@) },
{
    if !contains_name(v, t) {
        let ghost before = names(v@);
        v.push(t.duplicate());
        assert(names(v@) =~= before.push(t@));
    }
}

/// The base variables of the sides whose flags are set: `lhs_match[i]` for
/// the left side of constraint `i`, `rhs_match[i]` for its right side; each
/// name once, in order of first occurrence.
pub fn interesting_from_matches(cons: &Vec<SubtypeConstraint>, lhs_match: &Vec<bool>, rhs_match: &Vec<bool>) -> (r: Vec<TypeVariable>)
    requires
        lhs_match@.len() == cons@.len(),
        rhs_match@.len() == cons@.len(),
    ensures
        names(r@) == selected(cons@, lhs_match@, rhs_match@),
{
    let mut r: Vec<TypeVariable> = Vec::new();
    let mut i: usize = 0;
    while i < cons.len()
        invariant
            i <= cons@.len(),
            lhs_match@.len() == cons@.len(),
            rhs_match@.len() == cons@.len(),
            names(r@) == selected(cons@.take(i as int), lhs_match@.take(i as int), rhs_match@.take(i as int)),
        decreases cons@.len() - i,
    {
        assert(cons@.take(i + 1).drop_last() =~= cons@.take(i as int));
        assert(lhs_match@.take(i + 1).take(i as int) =~= lhs_match@.take(i as int));
        assert(rhs_match@.take(i + 1).take(i as int) =~= rhs_match@.take(i as int));
        if lhs_match[i] {
            push_new(&mut r, cons[i].lhs.get_base_variable());
        }
        if rhs_match[i] {
            push_new(&mut r, cons[i].rhs.get_base_variable());
        }
        i = i + 1;
    }
    assert(cons@.take(i as int) =~= cons@);
    assert(lhs_match@.take(i as int) =~= lhs_match@);
    assert(rhs_match@.take(i as int) =~= rhs_match@);
    r
}

/// The flags of the sides whose base names `pattern` matches.
pub open spec fn lhs_flags(cons: Seq<SubtypeConstraint>, pattern: Seq<char>) -> Seq<bool> {
    cons.map_values(|c: SubtypeConstraint| pattern_matches(pattern, c.lhs@.base))
}

/// The flags of the right sides whose base names `pattern` matches.
pub open spec fn rhs_flags(cons: Seq<SubtypeConstraint>, pattern: Seq<char>) -> Seq<bool> {
    cons.map_values(|c: SubtypeConstraint| pattern_matches(pattern, c.rhs@.base))
}

/// The interesting variables of a constraint set: the base variables whose
/// names the regular expression `pattern` matches, each once, in order of
/// first occurrence. Fails where the pattern does not compile and there is a
/// name to test.
pub fn select_interesting(cons: &Vec<SubtypeConstraint>, pattern: &str) -> (r: Result<Vec<TypeVariable>, SelectionError>)
    ensures
        r is Err ==> !pattern_compiles(pattern@) && r->Err_0 == SelectionError::InvalidPattern,
        (cons@.len() > 0 && !pattern_compiles(pattern@)) ==> r is Err,
        r is Ok ==> names(r->Ok_0@) == selected(cons@, lhs_flags(cons@, pattern@), rhs_flags(cons@, pattern@)),
{
    let mut lm: Vec<bool> = Vec::new();
    let mut rm: Vec<bool> = Vec::new();
    let mut i: usize = 0;
    while i < cons.len()
        invariant
            i <= cons@.len(),
            i > 0 ==> pattern_compiles(pattern@),
            lm@ == lhs_flags(cons@, pattern@).take(i as int),
            rm@ == rhs_flags(cons@, pattern@).take(i as int),
        decreases cons@.len() - i,
    {
        let l = match regex_is_match(pattern, cons[i].lhs.get_base_variable().get_name().as_str()) {
            Ok(b) => b,
            Err(_) => return Err(SelectionError::InvalidPattern),
        };
        let r = match regex_is_match(pattern, cons[i].rhs.get_base_variable().get_name().as_str()) {
            Ok(b) => b,
            Err(_) => return Err(SelectionError::InvalidPattern),
        };
        lm.push(l);
        rm.push(r);
        assert(lm@ =~= lhs_flags(cons@, pattern@).take(i + 1));
        assert(rm@ =~= rhs_flags(cons@, pattern@).take(i + 1));
        i = i + 1;
    }
    assert(lm@ =~= lhs_flags(cons@, pattern@));
    assert(rm@ =~= rhs_flags(cons@, pattern@));
    Ok(interesting_from_matches(cons, &lm, &rm))
}

} // verus!
