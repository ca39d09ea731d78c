//! The serialisable form of a type mapping, with 32-bit integers.
use vstd::prelude::*;

verus! {

/// A type id.
#[derive(Clone, Copy, Debug, PartialEq, Eq, Structural)]
pub struct TypeId {
    pub type_id: u32,
}

/// A structure field.
#[derive(Clone, Copy, Debug, PartialEq, Eq, Structural)]
pub struct Field {
    pub bit_size: u32,
    pub byte_offset: u32,
    pub type_id: Option<TypeId>,
}

/// A function parameter.
#[derive(Clone, Copy, Debug, PartialEq, Eq, Structural)]
pub struct Parameter {
    pub parameter_index: u32,
    pub type_index: Option<TypeId>,
}

/// A primitive type by name.
#[derive(Clone, Debug)]
pub struct Primitive {
    pub type_constant: String,
}

/// A pointer.
#[derive(Clone, Copy, Debug, PartialEq, Eq, Structural)]
pub struct Pointer {
    pub to_type_id: Option<TypeId>,
}

/// An alias of another type.
#[derive(Clone, Copy, Debug, PartialEq, Eq, Structural)]
pub struct Alias {
    pub to_type: Option<TypeId>,
}

/// A structure.
#[derive(Clone, Debug, Default)]
pub struct Structure {
    pub fields: Vec<Field>,
}

/// A union.
#[derive(Clone, Debug, Default)]
pub struct Union {
    pub target_type_ids: Vec<TypeId>,
}

/// A function.
#[derive(Clone, Debug, Default)]
pub struct Function {
    pub parameters: Vec<Parameter>,
    pub return_type: Option<TypeId>,
    pub has_return: bool,
}

/// The kind of a type and what it holds.
#[derive(Clone, Debug)]
pub enum InnerType {
    Primitive(Primitive),
    Pointer(Pointer),
    Alias(Alias),
    Structure(Structure),
    Union(Union),
    Function(Function),
}

/// A type with its id.
#[derive(Clone, Debug)]
pub struct CType {
    pub type_id: Option<TypeId>,
    pub inner_type: Option<InnerType>,
}

/// Types with their ids, in the order of the type list they come from.
#[derive(Clone, Debug, Default)]
pub struct CTypeMapping {
    pub type_id_to_ctype: Vec<(u32, CType)>,
}

} // verus!
