//! Schema types: the dynamic type former a value is marshalled under.
//!
//! A schema is discovered from the loaded component's reflection and drives
//! every size, alignment and codec decision.  It mirrors the component
//! model's type grammar: primitives, `string`, `list`, `record`, `tuple`,
//! `variant`, `enum`, `option`, `result`, `flags`, and owned or borrowed
//! resource handles.

use vstd::prelude::*;

verus! {

/// A named record field and its type.
#[derive(Debug)]
pub struct FieldTy {
    pub name: String,
    pub ty: Ty,
}

/// A named variant case and its optional payload type.
#[derive(Debug)]
pub struct CaseTy {
    pub name: String,
    pub payload: Option<Ty>,
}

/// A schema type.  `Opt` and `Res` are the component model's `option` and
/// `result` formers; `Own` and `Borrow` carry the identity of the resource
/// type they handle.
#[derive(Debug)]
pub enum Ty {
    Bool,
    S8,
    U8,
    S16,
    U16,
    S32,
    U32,
    S64,
    U64,
    F32,
    F64,
    Char,
    Str,
    List(Box<Ty>),
    Record(Vec<FieldTy>),
    Tuple(Vec<Ty>),
    Variant(Vec<CaseTy>),
    Enum(Vec<String>),
    Opt(Box<Ty>),
    Res(Option<Box<Ty>>, Option<Box<Ty>>),
    Flags(Vec<String>),
    Own(u32),
    Borrow(u32),
}

} // verus!
