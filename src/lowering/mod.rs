//! Lowering of sketch graphs to C-like types.
use vstd::prelude::*;

pub mod schedule;
pub mod context;
pub mod convert;

verus! {

/// A unique identifier for a lowered type.
#[derive(Clone, Copy, Debug, PartialEq, Eq, Structural, PartialOrd, Ord, Hash)]
pub struct TypeId(pub usize);

/// A field of a structure: its byte offset, its width in bits and its type.
#[derive(Clone, Copy, Debug, PartialEq, Eq, Structural, PartialOrd, Ord, Hash)]
pub struct Field {
    pub byte_offset: usize,
    pub bit_sz: usize,
    pub type_index: TypeId,
}

/// A parameter of a function: its index and its type.
#[derive(Clone, Copy, Debug, PartialEq, Eq, Structural, PartialOrd, Ord, Hash)]
pub struct Parameter {
    pub index: usize,
    pub type_index: TypeId,
}

impl Field {
    /// A field at `byte_offset`, `bit_sz` bits wide, of type `type_index`.
    pub fn new(byte_offset: usize, bit_sz: usize, type_index: TypeId) -> (r: Field)
        ensures
            r == (Field { byte_offset, bit_sz, type_index }),
    {
        Field { byte_offset, bit_sz, type_index }
    }
}

impl Parameter {
    /// The parameter at `index` of type `type_index`.
    pub fn new(index: usize, type_index: TypeId) -> (r: Parameter)
        ensures
            r == (Parameter { index, type_index }),
    {
        Parameter { index, type_index }
    }
}

/// A type lowered from a sketch node.
#[derive(Clone, Debug)]
pub enum CType {
    /// A primitive type, by name.
    Primitive(String),
    /// A pointer to another type.
    Pointer { target: TypeId },
    /// The type of another node.
    Alias(crate::sketch::NodeIndex),
    /// The fields of a structure; no two overlap.
    Structure(Vec<Field>),
    /// Parameters and an optional return type.
    Function { params: Vec<Parameter>, return_ty: Option<TypeId> },
    /// One of several types.
    Union(Vec<TypeId>),
}

/// Why a lowering could not be completed.
#[derive(Clone, Copy, Debug, PartialEq, Eq, Structural)]
pub enum LoweringError {
    /// A type id or a field offset would not fit in a `usize`.
    Overflow,
}

/// `c` is the primitive named `name`.
pub open spec fn is_primitive_named(c: CType, name: Seq<char>) -> bool {
    match c {
        CType::Primitive(n) => n@ == name,
        _ => false,
    }
}

/// The first byte past a field.
pub open spec fn fld_end(f: Field) -> int {
    f.byte_offset + f.bit_sz / 8
}

/// `inner` lies strictly inside `outer`: it begins after `outer` begins and
/// ends before `outer` ends.
pub open spec fn strictly_contains(outer: Field, inner: Field) -> bool {
    outer.byte_offset < inner.byte_offset && fld_end(inner) < fld_end(outer)
}

/// The byte ranges of two fields intersect.
pub open spec fn overlaps(a: Field, b: Field) -> bool {
    a.byte_offset < fld_end(b) && b.byte_offset < fld_end(a)
}

/// Each field ends at or before the start of every later one.
pub open spec fn non_overlapping(s: Seq<Field>) -> bool {
    forall|i: int, j: int| 0 <= i < j < s.len() ==> fld_end(#[trigger] s[i]) <= #[trigger] s[j].byte_offset
}

} // verus!
