//! Typed component values and their mathematical view.
//!
//! A [`Value`] is the runtime shape the codec marshals: a tagged sum
//! parallel to the schema grammar.  Floating-point payloads are carried as
//! their IEEE-754 bit patterns, so the codec itself never computes with
//! floats.  The view type [`ValV`] states the same value over `Seq`, which
//! is what every contract in this crate speaks about; optional payloads
//! appear there as sequences of length zero or one.

use vstd::prelude::*;

use crate::schema::{CaseTy, FieldTy, Ty};

verus! {

/// An opaque resource token: the engine-side identity of a live resource,
/// carrying the identity of its resource type.
#[derive(Clone, Copy, Debug, PartialEq, Eq, Structural)]
pub struct Token {
    /// The engine's identity for the resource instance.
    pub id: u64,
    /// The identity of the resource type the token belongs to.
    pub ty: u32,
}

/// A typed component value.
#[derive(Debug, PartialEq)]
pub enum Value {
    Bool(bool),
    S8(i8),
    U8(u8),
    S16(i16),
    U16(u16),
    S32(i32),
    U32(u32),
    S64(i64),
    U64(u64),
    /// A 32-bit IEEE-754 value, as its bit pattern.
    F32Bits(u32),
    /// A 64-bit IEEE-754 value, as its bit pattern.
    F64Bits(u64),
    Char(char),
    Str(String),
    List(Vec<Value>),
    Record(Vec<Value>),
    Tuple(Vec<Value>),
    /// A variant case: its name and its payload, if the case has one.
    Variant(String, Option<Box<Value>>),
    /// An enum case name.
    Enum(String),
    /// An option value.
    Opt(Option<Box<Value>>),
    /// A result value: the payload of the `ok` or of the `err` case.
    Res(Result<Option<Box<Value>>, Option<Box<Value>>>),
    /// The names of the set flags, in the schema's order, without repeats.
    Flags(Vec<String>),
    Own(Token),
    Borrow(Token),
}

/// The mathematical shape of a [`Value`]: strings as character sequences,
/// aggregates as sequences, optional payloads as sequences of length at
/// most one.  `Res` carries `true` for the `err` case.
pub enum ValV {
    Bool(bool),
    S8(i8),
    U8(u8),
    S16(i16),
    U16(u16),
    S32(i32),
    U32(u32),
    S64(i64),
    U64(u64),
    F32Bits(u32),
    F64Bits(u64),
    Char(char),
    Str(Seq<char>),
    List(Seq<ValV>),
    Record(Seq<ValV>),
    Tuple(Seq<ValV>),
    Variant(Seq<char>, Seq<ValV>),
    Enum(Seq<char>),
    Opt(Seq<ValV>),
    Res(bool, Seq<ValV>),
    Flags(Seq<Seq<char>>),
    Own(Token),
    Borrow(Token),
}

/// The views of a sequence of values.
pub open spec fn seq_view(items: Seq<Value>) -> Seq<ValV>
    decreases items, 0int,
{
    Seq::new(
        items.len(),
        |i: int|
            if 0 <= i < items.len() {
                items[i]@
            } else {
                ValV::Bool(false)
            },
    )
}

/// The view of an optional boxed payload: a sequence of length zero or one.
pub open spec fn payload_view(p: Option<Box<Value>>) -> Seq<ValV>
    decreases p, 0int,
{
    match p {
        Some(b) => seq![(*b)@],
        None => Seq::empty(),
    }
}

/// The views of a sequence of names.
pub open spec fn names_view(names: Seq<String>) -> Seq<Seq<char>> {
    Seq::new(names.len(), |i: int| names[i]@)
}

impl View for Value {
    type V = ValV;

    open spec fn view(&self) -> ValV
        decreases self, 1int,
    {
        match self {
            Value::Bool(b) => ValV::Bool(*b),
            Value::S8(x) => ValV::S8(*x),
            Value::U8(x) => ValV::U8(*x),
            Value::S16(x) => ValV::S16(*x),
            Value::U16(x) => ValV::U16(*x),
            Value::S32(x) => ValV::S32(*x),
            Value::U32(x) => ValV::U32(*x),
            Value::S64(x) => ValV::S64(*x),
            Value::U64(x) => ValV::U64(*x),
            Value::F32Bits(x) => ValV::F32Bits(*x),
            Value::F64Bits(x) => ValV::F64Bits(*x),
            Value::Char(c) => ValV::Char(*c),
            Value::Str(s) => ValV::Str(s@),
            Value::List(items) => ValV::List(seq_view(items@)),
            Value::Record(items) => ValV::Record(seq_view(items@)),
            Value::Tuple(items) => ValV::Tuple(seq_view(items@)),
            Value::Variant(name, p) => ValV::Variant(name@, payload_view(*p)),
            Value::Enum(name) => ValV::Enum(name@),
            Value::Opt(p) => ValV::Opt(payload_view(*p)),
            Value::Res(r) => match r {
                Ok(p) => ValV::Res(false, payload_view(*p)),
                Err(p) => ValV::Res(true, payload_view(*p)),
            },
            Value::Flags(names) => ValV::Flags(names_view(names@)),
            Value::Own(tok) => ValV::Own(*tok),
            Value::Borrow(tok) => ValV::Borrow(*tok),
        }
    }
}

/// Index of the first case with the given name among `cs[k..]`, or -1.
pub open spec fn find_case(cs: Seq<CaseTy>, name: Seq<char>, k: int) -> int
    decreases cs.len() - k,
{
    if k < 0 || k >= cs.len() {
        -1
    } else if cs[k].name@ == name {
        k
    } else {
        find_case(cs, name, k + 1)
    }
}

/// Index of the first occurrence of the given name among `ns[k..]`, or -1.
pub open spec fn find_name(ns: Seq<String>, name: Seq<char>, k: int) -> int
    decreases ns.len() - k,
{
    if k < 0 || k >= ns.len() {
        -1
    } else if ns[k]@ == name {
        k
    } else {
        find_name(ns, name, k + 1)
    }
}

/// A variant payload value fits a case's payload type: present exactly when
/// the case declares one, and then well-typed.
pub open spec fn payload_has_type(pv: Seq<ValV>, pt: Option<Ty>) -> bool
    decreases pv, pt, 0int,
{
    match pt {
        Some(ty) => pv.len() == 1 && has_type(pv[0], ty),
        None => pv.len() == 0,
    }
}

/// An option or result payload value fits an optional payload type.
pub open spec fn payload_has_opt_type(pv: Seq<ValV>, pt: Option<Box<Ty>>) -> bool
    decreases pv, pt, 0int,
{
    match pt {
        Some(ty) => pv.len() == 1 && has_type(pv[0], *ty),
        None => pv.len() == 0,
    }
}

/// Every element of `vals` is a well-typed element of a list of type `t`.
pub open spec fn list_has_type(vals: Seq<ValV>, t: Ty) -> bool
    decreases vals, t, 0int,
{
    forall|i: int| 0 <= i < vals.len() ==> has_type(#[trigger] vals[i], t)
}

/// The values fit the record's fields, position by position.
pub open spec fn record_has_type(vals: Seq<ValV>, fs: Seq<FieldTy>) -> bool
    decreases vals, fs, 0int,
{
    vals.len() == fs.len() && forall|i: int|
        0 <= i < vals.len() ==> has_type(#[trigger] vals[i], fs[i].ty)
}

/// The values fit the tuple's element types, position by position.
pub open spec fn tuple_has_type(vals: Seq<ValV>, ts: Seq<Ty>) -> bool
    decreases vals, ts, 0int,
{
    vals.len() == ts.len() && forall|i: int|
        0 <= i < vals.len() ==> has_type(#[trigger] vals[i], ts[i])
}

/// The flag names are an ordered selection of the schema's names: walking
/// the schema's names in order matches each value name in turn, and every
/// value name is matched.
pub open spec fn flags_has_type_from(names: Seq<Seq<char>>, ns: Seq<String>, j: int, k: int) -> bool
    decreases ns.len() - k,
{
    if k < 0 || k >= ns.len() {
        j == names.len()
    } else if 0 <= j < names.len() && names[j] == ns[k]@ {
        flags_has_type_from(names, ns, j + 1, k + 1)
    } else {
        flags_has_type_from(names, ns, j, k + 1)
    }
}

/// The flag names are drawn from the schema's names, in the schema's order
/// and without repeats beyond what the schema itself repeats.
pub open spec fn flags_has_type(names: Seq<Seq<char>>, ns: Seq<String>) -> bool {
    flags_has_type_from(names, ns, 0, 0)
}

/// The value has the schema type: the judgement every codec contract is
/// stated against.
pub open spec fn has_type(v: ValV, t: Ty) -> bool
    decreases v, t, 1int,
{
    match (v, t) {
        (ValV::Bool(_), Ty::Bool) => true,
        (ValV::S8(_), Ty::S8) => true,
        (ValV::U8(_), Ty::U8) => true,
        (ValV::S16(_), Ty::S16) => true,
        (ValV::U16(_), Ty::U16) => true,
        (ValV::S32(_), Ty::S32) => true,
        (ValV::U32(_), Ty::U32) => true,
        (ValV::S64(_), Ty::S64) => true,
        (ValV::U64(_), Ty::U64) => true,
        (ValV::F32Bits(_), Ty::F32) => true,
        (ValV::F64Bits(_), Ty::F64) => true,
        (ValV::Char(_), Ty::Char) => true,
        (ValV::Str(_), Ty::Str) => true,
        (ValV::List(vals), Ty::List(elem)) => list_has_type(vals, *elem),
        (ValV::Record(vals), Ty::Record(fs)) => record_has_type(vals, fs@),
        (ValV::Tuple(vals), Ty::Tuple(ts)) => tuple_has_type(vals, ts@),
        (ValV::Variant(name, pv), Ty::Variant(cs)) => {
            let i = find_case(cs@, name, 0);
            i >= 0 && payload_has_type(pv, cs@[i].payload)
        },
        (ValV::Enum(name), Ty::Enum(ns)) => find_name(ns@, name, 0) >= 0,
        (ValV::Opt(pv), Ty::Opt(inner)) => pv.len() == 0 || (pv.len() == 1 && has_type(
            pv[0],
            *inner,
        )),
        (ValV::Res(is_err, pv), Ty::Res(ok, err)) => {
            if is_err {
                payload_has_opt_type(pv, err)
            } else {
                payload_has_opt_type(pv, ok)
            }
        },
        (ValV::Flags(names), Ty::Flags(ns)) => flags_has_type(names, ns@),
        (ValV::Own(tok), Ty::Own(rid)) => tok.ty == rid,
        (ValV::Borrow(tok), Ty::Borrow(rid)) => tok.ty == rid,
        _ => false,
    }
}

/// Viewing commutes with appending a value.
pub proof fn lemma_seq_view_push(s: Seq<Value>, v: Value)
    ensures
        seq_view(s.push(v)) == seq_view(s).push(v@),
{
    assert(seq_view(s.push(v)) =~= seq_view(s).push(v@));
}

/// Viewing commutes with appending a name.
pub proof fn lemma_names_view_push(s: Seq<String>, n: String)
    ensures
        names_view(s.push(n)) == names_view(s).push(n@),
{
    assert(names_view(s.push(n)) =~= names_view(s).push(n@));
}

} // verus!
