//! Conversion of lowered types to their serialisable form.
use vstd::prelude::*;
use crate::util::reversed;
use crate::ctypes;
use crate::lowering::{CType, Field, LoweringError, Parameter, TypeId};

verus! {

/// The largest value of a 32-bit field.
pub const U32_LIMIT: usize = 0xffff_ffff;

/// `v` fits in 32 bits.
pub open spec fn fits_u32(v: usize) -> bool {
    v <= u32::MAX
}

/// Every integer of `c` fits in 32 bits.
pub open spec fn ctype_fits(c: CType) -> bool {
    match c {
        CType::Pointer { target } => fits_u32(target.0),
        CType::Structure(fs) => forall|i: int| 0 <= i < fs@.len() ==> fits_u32((#[trigger] fs@[i]).bit_sz)
            && fits_u32(fs@[i].byte_offset) && fits_u32(fs@[i].type_index.0),
        CType::Function { params, return_ty } => (forall|i: int| 0 <= i < params@.len() ==> fits_u32((#[trigger] params@[i]).index)
            && fits_u32(params@[i].type_index.0)) && match return_ty {
            Some(t) => fits_u32(t.0),
            None => true,
        },
        CType::Union(ids) => forall|i: int| 0 <= i < ids@.len() ==> fits_u32((#[trigger] ids@[i]).0),
        _ => true,
    }
}

/// The id of every type that a node maps to fits in 32 bits.
pub open spec fn node_map_fits(mp: Seq<TypeId>) -> bool {
    forall|i: int| 0 <= i < mp.len() ==> fits_u32((#[trigger] mp[i]).0)
}

/// The same id in 32 bits.
pub fn convert_typeid(type_id: TypeId) -> (r: ctypes::TypeId)
    requires
        fits_u32(type_id.0),
    ensures
        r.type_id == type_id.0,
        r == (ctypes::TypeId { type_id: type_id.0 as u32 }),
{
    ctypes::TypeId { type_id: type_id.0 as u32 }
}

fn field_to_protobuf(internal_field: Field) -> (r: ctypes::Field)
    requires
        fits_u32(internal_field.bit_sz),
        fits_u32(internal_field.byte_offset),
        fits_u32(internal_field.type_index.0),
    ensures
        r.bit_size == internal_field.bit_sz,
        r.byte_offset == internal_field.byte_offset,
        r.type_id == Some(ctypes::TypeId { type_id: internal_field.type_index.0 as u32 }),
{
    ctypes::Field {
        bit_size: internal_field.bit_sz as u32,
        byte_offset: internal_field.byte_offset as u32,
        type_id: Some(convert_typeid(internal_field.type_index)),
    }
}

fn param_to_protofbuf(internal_param: Parameter) -> (r: ctypes::Parameter)
    requires
        fits_u32(internal_param.index),
        fits_u32(internal_param.type_index.0),
    ensures
        r.parameter_index == internal_param.index,
        r.type_index == Some(ctypes::TypeId { type_id: internal_param.type_index.0 as u32 }),
{
    ctypes::Parameter {
        parameter_index: internal_param.index as u32,
        type_index: Some(convert_typeid(internal_param.type_index)),
    }
}

/// The id in 32 bits, as an option.
pub open spec fn proto_id(t: TypeId) -> Option<ctypes::TypeId> {
    Some(ctypes::TypeId { type_id: t.0 as u32 })
}

/// `r` is the serialisable form of `c`, where aliases are resolved through
/// the node map `mp`.
pub open spec fn inner_type_of(c: CType, mp: Seq<TypeId>, r: ctypes::InnerType) -> bool {
    match c {
        CType::Alias(tgt) => r == ctypes::InnerType::Alias(ctypes::Alias {
            to_type: if tgt.0 < mp.len() { proto_id(mp[tgt.0 as int]) } else { None },
        }),
        CType::Function { params, return_ty } => match r {
            ctypes::InnerType::Function(f) => {
                &&& f.parameters@.len() == params@.len()
                &&& forall|i: int| 0 <= i < params@.len() ==> (#[trigger] f.parameters@[i]).parameter_index == params@[i].index
                    && f.parameters@[i].type_index == proto_id(params@[i].type_index)
                &&& f.has_return == return_ty.is_some()
                &&& f.return_type == match return_ty {
                    Some(t) => proto_id(t),
                    None => None,
                }
            },
            _ => false,
        },
        CType::Pointer { target } => r == ctypes::InnerType::Pointer(ctypes::Pointer { to_type_id: proto_id(target) }),
        CType::Primitive(val) => match r {
            ctypes::InnerType::Primitive(p) => p.type_constant@ == val@,
            _ => false,
        },
        CType::Structure(fields) => match r {
            ctypes::InnerType::Structure(st) => {
                &&& st.fields@.len() == fields@.len()
                &&& forall|i: int| 0 <= i < fields@.len() ==> (#[trigger] st.fields@[i]).bit_size == fields@[i].bit_sz
                    && st.fields@[i].byte_offset == fields@[i].byte_offset
                    && st.fields@[i].type_id == proto_id(fields@[i].type_index)
            },
            _ => false,
        },
        CType::Union(children) => match r {
            ctypes::InnerType::Union(u) => {
                &&& u.target_type_ids@.len() == children@.len()
                &&& forall|i: int| 0 <= i < children@.len() ==> (#[trigger] u.target_type_ids@[i]).type_id == children@[i].0
            },
            _ => false,
        },
    }
}

/// The serialisable form of `ct`; an alias is resolved to the type of its
/// node in `mp`, or to no type where `mp` has no entry for it.
pub fn produce_inner_types(ct: CType, mp: &Vec<TypeId>) -> (r: ctypes::InnerType)
    requires
        ctype_fits(ct),
        node_map_fits(mp@),
    ensures
        inner_type_of(ct, mp@, r),
{
    let ghost c0 = ct;
    match ct {
        CType::Alias(tgt) => {
            let to_type = if tgt.0 < mp.len() {
                Some(convert_typeid(mp[tgt.0]))
            } else {
                None
            };
            let res = ctypes::InnerType::Alias(ctypes::Alias { to_type });
            assert(inner_type_of(c0, mp@, res));
            res
        },
        CType::Function { params, return_ty } => {
            let mut func = ctypes::Function { parameters: Vec::new(), return_type: None, has_return: false };
            let mut i: usize = 0;
            while i < params.len()
                invariant
                    i <= params@.len(),
                    c0 == (CType::Function { params, return_ty }),
                    func.return_type.is_none(),
                    func.parameters@.len() == i,
                    forall|j: int| 0 <= j < params@.len() ==> fits_u32((#[trigger] params@[j]).index) && fits_u32(params@[j].type_index.0),
                    forall|j: int| 0 <= j < i ==> (#[trigger] func.parameters@[j]).parameter_index == params@[j].index
                        && func.parameters@[j].type_index == proto_id(params@[j].type_index),
                decreases params@.len() - i,
            {
                func.parameters.push(param_to_protofbuf(params[i]));
                i = i + 1;
            }
            if let Some(return_ty) = return_ty {
                func.return_type = Some(convert_typeid(return_ty));
                func.has_return = true;
            } else {
                func.has_return = false;
            }
            let res = ctypes::InnerType::Function(func);
            assert(inner_type_of(c0, mp@, res));
            res
        },
        CType::Pointer { target } => ctypes::InnerType::Pointer(ctypes::Pointer { to_type_id: Some(convert_typeid(target)) }),
        CType::Primitive(val) => {
            let res = ctypes::InnerType::Primitive(ctypes::Primitive { type_constant: val });
            assert(inner_type_of(c0, mp@, res));
            res
        },
        CType::Structure(fields) => {
            let mut st = ctypes::Structure { fields: Vec::new() };
            let mut i: usize = 0;
            while i < fields.len()
                invariant
                    i <= fields@.len(),
                    c0 == CType::Structure(fields),
                    st.fields@.len() == i,
                    forall|j: int| 0 <= j < fields@.len() ==> fits_u32((#[trigger] fields@[j]).bit_sz)
                        && fits_u32(fields@[j].byte_offset) && fits_u32(fields@[j].type_index.0),
                    forall|j: int| 0 <= j < i ==> (#[trigger] st.fields@[j]).bit_size == fields@[j].bit_sz
                        && st.fields@[j].byte_offset == fields@[j].byte_offset
                        && st.fields@[j].type_id == proto_id(fields@[j].type_index),
                decreases fields@.len() - i,
            {
                st.fields.push(field_to_protobuf(fields[i]));
                i = i + 1;
            }
            ctypes::InnerType::Structure(st)
        },
        CType::Union(children) => {
            let mut u = ctypes::Union { target_type_ids: Vec::new() };
            let mut i: usize = 0;
            while i < children.len()
                invariant
                    i <= children@.len(),
                    c0 == CType::Union(children),
                    u.target_type_ids@.len() == i,
                    forall|j: int| 0 <= j < children@.len() ==> fits_u32((#[trigger] children@[j]).0),
                    forall|j: int| 0 <= j < i ==> (#[trigger] u.target_type_ids@[j]).type_id == children@[j].0,
                decreases children@.len() - i,
            {
                u.target_type_ids.push(convert_typeid(children[i]));
                i = i + 1;
            }
            ctypes::InnerType::Union(u)
        },
    }
}


fn fields_fit(fs: &Vec<Field>) -> (r: bool)
    ensures
        r == forall|i: int| 0 <= i < fs@.len() ==> fits_u32((#[trigger] fs@[i]).bit_sz)
            && fits_u32(fs@[i].byte_offset) && fits_u32(fs@[i].type_index.0),
{
    let mut i: usize = 0;
    while i < fs.len()
        invariant
            i <= fs@.len(),
            forall|j: int| 0 <= j < i ==> fits_u32((#[trigger] fs@[j]).bit_sz) && fits_u32(fs@[j].byte_offset) && fits_u32(fs@[j].type_index.0),
        decreases fs@.len() - i,
    {
        if fs[i].bit_sz > U32_LIMIT || fs[i].byte_offset > U32_LIMIT || fs[i].type_index.0 > U32_LIMIT {
            return false;
        }
        i = i + 1;
    }
    true
}

fn params_fit(params: &Vec<Parameter>) -> (r: bool)
    ensures
        r == forall|i: int| 0 <= i < params@.len() ==> fits_u32((#[trigger] params@[i]).index)
            && fits_u32(params@[i].type_index.0),
{
    let mut i: usize = 0;
    while i < params.len()
        invariant
            i <= params@.len(),
            forall|j: int| 0 <= j < i ==> fits_u32((#[trigger] params@[j]).index) && fits_u32(params@[j].type_index.0),
        decreases params@.len() - i,
    {
        if params[i].index > U32_LIMIT || params[i].type_index.0 > U32_LIMIT {
            return false;
        }
        i = i + 1;
    }
    true
}

fn ids_fit(ids: &Vec<TypeId>) -> (r: bool)
    ensures
        r == forall|i: int| 0 <= i < ids@.len() ==> fits_u32((#[trigger] ids@[i]).0),
{
    let mut i: usize = 0;
    while i < ids.len()
        invariant
            i <= ids@.len(),
            forall|j: int| 0 <= j < i ==> fits_u32((#[trigger] ids@[j]).0),
        decreases ids@.len() - i,
    {
        if ids[i].0 > U32_LIMIT {
            return false;
        }
        i = i + 1;
    }
    true
}

fn ctype_fits_u32(c: &CType) -> (r: bool)
    ensures
        r == ctype_fits(*c),
{
    match c {
        CType::Pointer { target } => target.0 <= U32_LIMIT,
        CType::Structure(fs) => fields_fit(fs),
        CType::Function { params, return_ty } => {
            let ok = params_fit(params);
            match return_ty {
                Some(t) => ok && t.0 <= U32_LIMIT,
                None => ok,
            }
        },
        CType::Union(ids) => ids_fit(ids),
        _ => true,
    }
}

/// Every integer of a type list fits in 32 bits.
pub open spec fn mapping_fits(mp: Seq<(TypeId, CType)>, node_to_ty: Seq<TypeId>) -> bool {
    &&& node_map_fits(node_to_ty)
    &&& forall|i: int| 0 <= i < mp.len() ==> fits_u32((#[trigger] mp[i]).0.0) && ctype_fits(mp[i].1)
}

/// The serialisable form of a type list, in the same order; aliases are
/// resolved through `node_to_ty`, the type of each node by its index. It fails
/// with `Overflow` exactly when an integer does not fit in 32 bits.
pub fn convert_mapping_to_profobuf(mp: Vec<(TypeId, CType)>, node_to_ty: &Vec<TypeId>) -> (r: Result<ctypes::CTypeMapping, LoweringError>)
    ensures
        (r is Ok) == mapping_fits(mp@, node_to_ty@),
        r is Err ==> r->Err_0 == LoweringError::Overflow,
        r is Ok ==> {
            let m = r->Ok_0.type_id_to_ctype@;
            &&& m.len() == mp@.len()
            &&& forall|i: int| 0 <= i < m.len() ==> {
                &&& (#[trigger] m[i]).0 == mp@[i].0.0
                &&& m[i].1.type_id == proto_id(mp@[i].0)
                &&& m[i].1.inner_type is Some
                &&& inner_type_of(mp@[i].1, node_to_ty@, m[i].1.inner_type.unwrap())
            }
        },
{
    let mut k: usize = 0;
    while k < node_to_ty.len()
        invariant
            k <= node_to_ty@.len(),
            forall|j: int| 0 <= j < k ==> fits_u32((#[trigger] node_to_ty@[j]).0),
        decreases node_to_ty@.len() - k,
    {
        if node_to_ty[k].0 > U32_LIMIT {
            return Err(LoweringError::Overflow);
        }
        k = k + 1;
    }
    let mut k: usize = 0;
    while k < mp.len()
        invariant
            k <= mp@.len(),
            forall|j: int| 0 <= j < k ==> fits_u32((#[trigger] mp@[j]).0.0) && ctype_fits(mp@[j].1),
        decreases mp@.len() - k,
    {
        if mp[k].0.0 > U32_LIMIT || !ctype_fits_u32(&mp[k].1) {
            return Err(LoweringError::Overflow);
        }
        k = k + 1;
    }
    let ghost mp0 = mp@;
    let n = mp.len();
    let mut rest = reversed(mp);
    let mut mapping = ctypes::CTypeMapping { type_id_to_ctype: Vec::new() };
    let mut i: usize = 0;
    while rest.len() > 0
        invariant
            mapping_fits(mp0, node_to_ty@),
            mp0.len() == n,
            i + rest@.len() == mp0.len(),
            rest@.reverse() == mp0.subrange(i as int, mp0.len() as int),
            mapping.type_id_to_ctype@.len() == i,
            forall|j: int| 0 <= j < i ==> {
                &&& (#[trigger] mapping.type_id_to_ctype@[j]).0 == mp0[j].0.0
                &&& mapping.type_id_to_ctype@[j].1.type_id == proto_id(mp0[j].0)
                &&& mapping.type_id_to_ctype@[j].1.inner_type is Some
                &&& inner_type_of(mp0[j].1, node_to_ty@, mapping.type_id_to_ctype@[j].1.inner_type.unwrap())
            },
        decreases rest@.len(),
    {
        let ghost before = rest@;
        assert(i < mp0.len());
        let (idx, ctype) = rest.pop().unwrap();
        proof {
            assert(before =~= rest@.push((idx, ctype)));
            assert(before.reverse() =~= seq![(idx, ctype)] + rest@.reverse());
            assert(mp0.subrange(i as int, mp0.len() as int)[0] == mp0[i as int]);
            assert((seq![(idx, ctype)] + rest@.reverse())[0] == (idx, ctype));
            assert(mp0.subrange(i as int, mp0.len() as int) =~= seq![mp0[i as int]] + mp0.subrange(i + 1, mp0.len() as int));
            assert((seq![(idx, ctype)] + rest@.reverse()).drop_first() =~= rest@.reverse());
            assert((seq![mp0[i as int]] + mp0.subrange(i + 1, mp0.len() as int)).drop_first() =~= mp0.subrange(i + 1, mp0.len() as int));
        }
        let inner = produce_inner_types(ctype, node_to_ty);
        let tid = convert_typeid(idx);
        mapping.type_id_to_ctype.push((tid.type_id, ctypes::CType { type_id: Some(tid), inner_type: Some(inner) }));
        i = i + 1;
    }
    Ok(mapping)
}

} // verus!
