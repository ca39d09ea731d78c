//! Resolution of memory accesses to type variables.
use vstd::prelude::*;
use crate::constraint_generation::TypeVariableAccess;
use crate::constraints::TypeVariable;
use vstd::string::StrSliceExecFns;

verus! {

/// The characters with the Unicode `White_Space` property.
pub open spec fn is_white_space(c: char) -> bool {
    ('\u{9}' <= c && c <= '\u{d}') || c == ' ' || c == '\u{85}' || c == '\u{a0}' || c == '\u{1680}'
        || ('\u{2000}' <= c && c <= '\u{200a}') || c == '\u{2028}' || c == '\u{2029}' || c == '\u{202f}'
        || c == '\u{205f}' || c == '\u{3000}'
}

fn white_space(c: char) -> (r: bool)
    ensures
        r == is_white_space(c),
{
    ('\u{9}' <= c && c <= '\u{d}') || c == ' ' || c == '\u{85}' || c == '\u{a0}' || c == '\u{1680}'
        || ('\u{2000}' <= c && c <= '\u{200a}') || c == '\u{2028}' || c == '\u{2029}' || c == '\u{202f}'
        || c == '\u{205f}' || c == '\u{3000}'
}

/// The characters of `s` that are not white space, in order.
pub open spec fn without_white_space(s: Seq<char>) -> Seq<char>
    decreases s.len(),
{
    if s.len() == 0 {
        Seq::empty()
    } else if is_white_space(s.last()) {
        without_white_space(s.drop_last())
    } else {
        without_white_space(s.drop_last()).push(s.last())
    }
}

/// The characters of the string, in order.
fn chars_of(s: &str) -> (r: Vec<char>)
    ensures
        r@ == s@,
{
    let n = s.unicode_len();
    let mut r: Vec<char> = Vec::new();
    let mut i: usize = 0;
    while i < n
        invariant
            n == s@.len(),
            i <= n,
            r@ == s@.take(i as int),
        decreases n - i,
    {
        r.push(s.get_char(i));
        assert(r@ =~= s@.take(i + 1));
        i = i + 1;
    }
    assert(s@.take(i as int) =~= s@);
    r
}

/// Relies on `String`'s `FromIterator<&char>`: the string of the characters, in order.
#[verifier::external_body]
pub(crate) fn string_of(cs: &Vec<char>) -> (r: String)
    ensures
        r@ == cs@,
{
    cs.iter().collect()
}

/// `name` with its white space removed.
pub fn strip_white_space(name: &str) -> (r: String)
    ensures
        r@ == without_white_space(name@),
{
    let cs = chars_of(name);
    let mut kept: Vec<char> = Vec::new();
    let mut i: usize = 0;
    while i < cs.len()
        invariant
            i <= cs@.len(),
            kept@ == without_white_space(cs@.take(i as int)),
        decreases cs@.len() - i,
    {
        assert(cs@.take(i + 1).drop_last() =~= cs@.take(i as int));
        if !white_space(cs[i]) {
            kept.push(cs[i]);
        }
        i = i + 1;
    }
    assert(cs@.take(i as int) =~= cs@);
    string_of(&kept)
}

/// The offset of an access relative to its object: where the object is the
/// current stack frame and the stack pointer's offset is known, the offset is
/// taken relative to the stack pointer; it is kept only where it is known, not
/// negative and fits in an `i64`.
pub open spec fn normalized_offset(is_stack: bool, offset: Option<i64>, stack_pointer_offset: Option<i64>) -> Option<i64> {
    match offset {
        None => None,
        Some(o) => {
            let cur: int = if is_stack && stack_pointer_offset.is_some() {
                o - stack_pointer_offset.unwrap()
            } else {
                o as int
            };
            if 0 <= cur <= i64::MAX {
                Some(cur as i64)
            } else {
                None
            }
        },
    }
}

/// The access of `sz` bytes at `offset` into the object named `object_name`,
/// as a type variable named after the object without white space and the
/// normalised offset.
pub fn memory_access_into_tvar(
    object_name: &str,
    is_stack: bool,
    offset: Option<i64>,
    stack_pointer_offset: Option<i64>,
    sz: usize,
) -> (r: TypeVariableAccess)
    ensures
        r.ty_var@ == without_white_space(object_name@),
        r.offset == normalized_offset(is_stack, offset, stack_pointer_offset),
        r.sz == sz,
{
    let off = match offset {
        None => None,
        Some(o) => {
            let cur: Option<i64> = if is_stack && stack_pointer_offset.is_some() {
                o.checked_sub(stack_pointer_offset.unwrap())
            } else {
                Some(o)
            };
            match cur {
                Some(c) => if c < 0 {
                    None
                } else {
                    Some(c)
                },
                None => None,
            }
        },
    };
    TypeVariableAccess { ty_var: TypeVariable::new(strip_white_space(object_name)), offset: off, sz }
}

} // verus!
