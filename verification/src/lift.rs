//! Lifting: reading typed values out of caller memory and out of the
//! flattened argument vector.
//!
//! [`lift_spec`] is the mathematical reader: the single account of what
//! bytes mean under a schema type.  The executable [`lift`] returns exactly
//! what `lift_spec` denotes, and the lowering codec's postcondition states
//! that `lift_spec` recovers the value it wrote — together they are the
//! round-trip law.  [`lift_param`] reads the argument-cell encoding, in
//! which small integers travel widened inside scalar cells.

use vstd::prelude::*;
use vstd::bytes::{spec_u16_from_le_bytes, spec_u32_from_le_bytes, spec_u64_from_le_bytes};
use vstd::utf8::{decode_utf8, is_scalar, valid_utf8};

use crate::error::{Error, ErrorKind};
use crate::layout::{
    align_up, case_size, cases_align, cases_size, disc_size, elem_offset, elems_align, elems_end,
    elems_ok, field_offset, fields_align, fields_end, fields_ok, flags_size, lemma_elem_in_tuple,
    lemma_field_in_record, lemma_ty_props, opt_align, opt_size, size_of, ty_ok, cases_ok, elems_flat, fields_flat, flat_of, case_flat,
};
use crate::mem::Memory;
use crate::resource::ResourceTable;
use crate::schema::{CaseTy, FieldTy, Ty};
use crate::value::{names_view, seq_view, Token, ValV, Value};

verus! {

/// The discriminant stored at `a` with the given byte width, or nothing if
/// the bytes are out of range.
pub open spec fn read_disc(m: Seq<u8>, a: int, width: int) -> Option<int> {
    if a >= 0 && a + width <= m.len() {
        if width == 1 {
            Some(m[a] as int)
        } else if width == 2 {
            Some(spec_u16_from_le_bytes(m.subrange(a, a + 2)) as int)
        } else {
            Some(spec_u32_from_le_bytes(m.subrange(a, a + 4)) as int)
        }
    } else {
        None
    }
}

/// The flag names selected by the low `k` bits of `bits`, in schema order.
pub open spec fn flags_names(ns: Seq<String>, bits: u32, k: int) -> Seq<Seq<char>>
    decreases k,
{
    if k <= 0 || k > ns.len() {
        Seq::empty()
    } else {
        flags_names(ns, bits, k - 1) + if (bits >> ((k - 1) as u32)) & 1 == 1 {
            seq![ns[k - 1]@]
        } else {
            Seq::empty()
        }
    }
}

/// What lifting denotes: the typed value stored at address `a` of memory
/// `m`, together with the resource table as lifting leaves it (an owned
/// handle moves its entry out).  `None` is a lifting fault: bytes out of
/// range, an invalid boolean or character, a discriminant past the case
/// count, ill-formed UTF-8, or a resource fault.
pub open spec fn lift_spec(t: Ty, m: Seq<u8>, tb: Seq<Option<Token>>, a: int) -> Option<
    (ValV, Seq<Option<Token>>),
>
    decreases t, 0int, 0int,
{
    match t {
        Ty::Bool => {
            if a >= 0 && a + 1 <= m.len() {
                if m[a] == 0 {
                    Some((ValV::Bool(false), tb))
                } else if m[a] == 1 {
                    Some((ValV::Bool(true), tb))
                } else {
                    None
                }
            } else {
                None
            }
        },
        Ty::S8 => {
            if a >= 0 && a + 1 <= m.len() {
                Some((ValV::S8(m[a] as i8), tb))
            } else {
                None
            }
        },
        Ty::U8 => {
            if a >= 0 && a + 1 <= m.len() {
                Some((ValV::U8(m[a]), tb))
            } else {
                None
            }
        },
        Ty::S16 => {
            if a >= 0 && a + 2 <= m.len() {
                Some((ValV::S16(spec_u16_from_le_bytes(m.subrange(a, a + 2)) as i16), tb))
            } else {
                None
            }
        },
        Ty::U16 => {
            if a >= 0 && a + 2 <= m.len() {
                Some((ValV::U16(spec_u16_from_le_bytes(m.subrange(a, a + 2))), tb))
            } else {
                None
            }
        },
        Ty::S32 => {
            if a >= 0 && a + 4 <= m.len() {
                Some((ValV::S32(spec_u32_from_le_bytes(m.subrange(a, a + 4)) as i32), tb))
            } else {
                None
            }
        },
        Ty::U32 => {
            if a >= 0 && a + 4 <= m.len() {
                Some((ValV::U32(spec_u32_from_le_bytes(m.subrange(a, a + 4))), tb))
            } else {
                None
            }
        },
        Ty::S64 => {
            if a >= 0 && a + 8 <= m.len() {
                Some((ValV::S64(spec_u64_from_le_bytes(m.subrange(a, a + 8)) as i64), tb))
            } else {
                None
            }
        },
        Ty::U64 => {
            if a >= 0 && a + 8 <= m.len() {
                Some((ValV::U64(spec_u64_from_le_bytes(m.subrange(a, a + 8))), tb))
            } else {
                None
            }
        },
        Ty::F32 => {
            if a >= 0 && a + 4 <= m.len() {
                Some((ValV::F32Bits(spec_u32_from_le_bytes(m.subrange(a, a + 4))), tb))
            } else {
                None
            }
        },
        Ty::F64 => {
            if a >= 0 && a + 8 <= m.len() {
                Some((ValV::F64Bits(spec_u64_from_le_bytes(m.subrange(a, a + 8))), tb))
            } else {
                None
            }
        },
        Ty::Char => {
            if a >= 0 && a + 4 <= m.len() {
                let u = spec_u32_from_le_bytes(m.subrange(a, a + 4));
                if is_scalar(u) {
                    Some((ValV::Char(u as char), tb))
                } else {
                    None
                }
            } else {
                None
            }
        },
        Ty::Str => {
            if a >= 0 && a + 16 <= m.len() {
                let ptr = spec_u64_from_le_bytes(m.subrange(a, a + 8)) as int;
                let len = spec_u64_from_le_bytes(m.subrange(a + 8, a + 16)) as int;
                if len == 0 {
                    Some((ValV::Str(Seq::empty()), tb))
                } else if ptr + len <= m.len() {
                    if valid_utf8(m.subrange(ptr, ptr + len)) {
                        Some((ValV::Str(decode_utf8(m.subrange(ptr, ptr + len))), tb))
                    } else {
                        None
                    }
                } else {
                    None
                }
            } else {
                None
            }
        },
        Ty::List(elem) => {
            if a >= 0 && a + 16 <= m.len() {
                let ptr = spec_u64_from_le_bytes(m.subrange(a, a + 8)) as int;
                let n = spec_u64_from_le_bytes(m.subrange(a + 8, a + 16)) as int;
                if n == 0 {
                    Some((ValV::List(Seq::empty()), tb))
                } else if n <= m.len() && ptr + n * size_of(*elem) <= m.len() {
                    match lift_list_spec(*elem, m, tb, ptr, size_of(*elem), n) {
                        Some((vals, tb2)) => Some((ValV::List(vals), tb2)),
                        None => None,
                    }
                } else {
                    None
                }
            } else {
                None
            }
        },
        Ty::Record(fs) => {
            match lift_record_spec(fs@, m, tb, a, fs@.len() as int) {
                Some((vals, tb2)) => Some((ValV::Record(vals), tb2)),
                None => None,
            }
        },
        Ty::Tuple(ts) => {
            match lift_tuple_spec(ts@, m, tb, a, ts@.len() as int) {
                Some((vals, tb2)) => Some((ValV::Tuple(vals), tb2)),
                None => None,
            }
        },
        Ty::Variant(cs) => {
            let n = cs@.len() as int;
            match read_disc(m, a, disc_size(n)) {
                Some(disc) => {
                    if disc < n {
                        let po = a + align_up(disc_size(n), cases_align(cs@, n));
                        match cs@[disc].payload {
                            Some(ty) => {
                                match lift_spec(ty, m, tb, po) {
                                    Some((pv, tb2)) => Some(
                                        (ValV::Variant(cs@[disc].name@, seq![pv]), tb2),
                                    ),
                                    None => None,
                                }
                            },
                            None => Some((ValV::Variant(cs@[disc].name@, Seq::empty()), tb)),
                        }
                    } else {
                        None
                    }
                },
                None => None,
            }
        },
        Ty::Enum(ns) => {
            let n = ns@.len() as int;
            match read_disc(m, a, disc_size(n)) {
                Some(disc) => {
                    if disc < n {
                        Some((ValV::Enum(ns@[disc]@), tb))
                    } else {
                        None
                    }
                },
                None => None,
            }
        },
        Ty::Opt(inner) => {
            if a >= 0 && a + 1 <= m.len() {
                if m[a] == 0 {
                    Some((ValV::Opt(Seq::empty()), tb))
                } else if m[a] == 1 {
                    let po = a + align_up(1, crate::layout::align_of(*inner));
                    match lift_spec(*inner, m, tb, po) {
                        Some((pv, tb2)) => Some((ValV::Opt(seq![pv]), tb2)),
                        None => None,
                    }
                } else {
                    None
                }
            } else {
                None
            }
        },
        Ty::Res(ok, err) => {
            if a >= 0 && a + 1 <= m.len() {
                let po = a + align_up(1, vstd::math::max(opt_align(ok), opt_align(err)));
                if m[a] == 0 {
                    match lift_opt_payload_spec(ok, m, tb, po) {
                        Some((pv, tb2)) => Some((ValV::Res(false, pv), tb2)),
                        None => None,
                    }
                } else if m[a] == 1 {
                    match lift_opt_payload_spec(err, m, tb, po) {
                        Some((pv, tb2)) => Some((ValV::Res(true, pv), tb2)),
                        None => None,
                    }
                } else {
                    None
                }
            } else {
                None
            }
        },
        Ty::Flags(ns) => {
            let n = ns@.len() as int;
            match read_disc(m, a, flags_size(n)) {
                Some(bits) => Some((ValV::Flags(flags_names(ns@, bits as u32, n)), tb)),
                None => None,
            }
        },
        Ty::Own(rid) => {
            if a >= 0 && a + 4 <= m.len() {
                let rep = spec_u32_from_le_bytes(m.subrange(a, a + 4)) as int;
                if rep < tb.len() {
                    match tb[rep] {
                        Some(tok) => {
                            if tok.ty == rid {
                                Some((ValV::Own(tok), tb.update(rep, None)))
                            } else {
                                None
                            }
                        },
                        None => None,
                    }
                } else {
                    None
                }
            } else {
                None
            }
        },
        Ty::Borrow(rid) => {
            if a >= 0 && a + 4 <= m.len() {
                let rep = spec_u32_from_le_bytes(m.subrange(a, a + 4)) as int;
                if rep < tb.len() {
                    match tb[rep] {
                        Some(tok) => {
                            if tok.ty == rid {
                                Some((ValV::Borrow(tok), tb))
                            } else {
                                None
                            }
                        },
                        None => None,
                    }
                } else {
                    None
                }
            } else {
                None
            }
        },
    }
}

/// Lifts the first `k` elements of a list laid out from `base` with the
/// element stride `es`, left to right.
pub open spec fn lift_list_spec(
    elem: Ty,
    m: Seq<u8>,
    tb: Seq<Option<Token>>,
    base: int,
    es: int,
    k: int,
) -> Option<(Seq<ValV>, Seq<Option<Token>>)>
    decreases elem, 1int, k,
{
    if k <= 0 {
        Some((Seq::empty(), tb))
    } else {
        match lift_list_spec(elem, m, tb, base, es, k - 1) {
            Some((vals, tb1)) => {
                match lift_spec(elem, m, tb1, base + (k - 1) * es) {
                    Some((v, tb2)) => Some((vals.push(v), tb2)),
                    None => None,
                }
            },
            None => None,
        }
    }
}

/// Lifts the first `k` fields of a record based at `base`, at their
/// canonical offsets, left to right.
pub open spec fn lift_record_spec(
    fs: Seq<FieldTy>,
    m: Seq<u8>,
    tb: Seq<Option<Token>>,
    base: int,
    k: int,
) -> Option<(Seq<ValV>, Seq<Option<Token>>)>
    decreases fs, 1int, k,
{
    if k <= 0 || k > fs.len() {
        Some((Seq::empty(), tb))
    } else {
        match lift_record_spec(fs, m, tb, base, k - 1) {
            Some((vals, tb1)) => {
                match lift_spec(fs[k - 1].ty, m, tb1, base + field_offset(fs, k - 1)) {
                    Some((v, tb2)) => Some((vals.push(v), tb2)),
                    None => None,
                }
            },
            None => None,
        }
    }
}

/// Lifts the first `k` elements of a tuple based at `base`.
pub open spec fn lift_tuple_spec(
    ts: Seq<Ty>,
    m: Seq<u8>,
    tb: Seq<Option<Token>>,
    base: int,
    k: int,
) -> Option<(Seq<ValV>, Seq<Option<Token>>)>
    decreases ts, 1int, k,
{
    if k <= 0 || k > ts.len() {
        Some((Seq::empty(), tb))
    } else {
        match lift_tuple_spec(ts, m, tb, base, k - 1) {
            Some((vals, tb1)) => {
                match lift_spec(ts[k - 1], m, tb1, base + elem_offset(ts, k - 1)) {
                    Some((v, tb2)) => Some((vals.push(v), tb2)),
                    None => None,
                }
            },
            None => None,
        }
    }
}

/// Lifts the payload of an option or result case: nothing when the case
/// has no payload type, one value at `a` when it has.
pub open spec fn lift_opt_payload_spec(
    o: Option<Box<Ty>>,
    m: Seq<u8>,
    tb: Seq<Option<Token>>,
    a: int,
) -> Option<(Seq<ValV>, Seq<Option<Token>>)>
    decreases o, 1int, 0int,
{
    match o {
        Some(ty) => {
            match lift_spec(*ty, m, tb, a) {
                Some((v, tb2)) => Some((seq![v], tb2)),
                None => None,
            }
        },
        None => Some((Seq::empty(), tb)),
    }
}

} // verus!

verus! {

/// The error kinds a memory lift can surface.
pub open spec fn lift_err_kind(k: ErrorKind) -> bool {
    ||| k == ErrorKind::NullArgument
    ||| k == ErrorKind::InvalidBool
    ||| k == ErrorKind::InvalidChar
    ||| k == ErrorKind::InvalidUtf8
    ||| k == ErrorKind::UnknownDiscriminant
    ||| k == ErrorKind::ResourceTypeMismatch
    ||| k == ErrorKind::ResourceTableMiss
}

/// Relies on `String::from_utf8`: it returns the string over exactly the
/// given bytes when they are valid UTF-8, and refuses them otherwise.
#[verifier::external_body]
fn vec_to_utf8(v: Vec<u8>) -> (r: Option<String>)
    ensures
        r is Some <==> valid_utf8(v@),
        r matches Some(s) ==> vstd::utf8::encode_utf8(s@) == v@,
{
    match String::from_utf8(v) {
        Ok(s) => Some(s),
        Err(_) => None,
    }
}

/// Relies on `char::from_u32`: it returns the character with the given
/// scalar value, and `None` exactly on surrogates and values past
/// `0x10FFFF`.
#[verifier::external_body]
fn char_from_scalar(u: u32) -> (r: Option<char>)
    ensures
        r is Some <==> is_scalar(u),
        r matches Some(c) ==> c as u32 == u,
{
    char::from_u32(u)
}

/// Turns validated UTF-8 bytes into the string value they decode to.
fn lift_string_bytes(bytes: Vec<u8>) -> (r: Result<String, Error>)
    ensures
        r is Ok <==> valid_utf8(bytes@),
        r matches Ok(s) ==> s@ == decode_utf8(bytes@),
        r matches Err(e) ==> e.kind == ErrorKind::InvalidUtf8,
{
    let ghost gb = bytes@;
    match vec_to_utf8(bytes) {
        Some(s) => {
            proof {
                vstd::utf8::encode_utf8_decode_utf8(s@);
            }
            Ok(s)
        },
        None => Err(Error::new(ErrorKind::InvalidUtf8)),
    }
}

} // verus!

verus! {

/// Once a list element fails to lift, every longer prefix fails too.
proof fn lemma_list_fail(
    elem: Ty,
    m: Seq<u8>,
    tb: Seq<Option<Token>>,
    base: int,
    es: int,
    k: int,
    n: int,
)
    requires
        0 <= k <= n,
        lift_list_spec(elem, m, tb, base, es, k) is None,
    ensures
        lift_list_spec(elem, m, tb, base, es, n) is None,
    decreases n - k,
{
    if k < n {
        lemma_list_fail(elem, m, tb, base, es, k + 1, n);
    }
}

/// Once a record field fails to lift, the whole record fails.
proof fn lemma_record_fail(
    fs: Seq<FieldTy>,
    m: Seq<u8>,
    tb: Seq<Option<Token>>,
    base: int,
    k: int,
    n: int,
)
    requires
        0 <= k <= n <= fs.len(),
        lift_record_spec(fs, m, tb, base, k) is None,
    ensures
        lift_record_spec(fs, m, tb, base, n) is None,
    decreases n - k,
{
    if k < n {
        lemma_record_fail(fs, m, tb, base, k + 1, n);
    }
}

/// Once a tuple element fails to lift, the whole tuple fails.
proof fn lemma_tuple_fail(ts: Seq<Ty>, m: Seq<u8>, tb: Seq<Option<Token>>, base: int, k: int, n: int)
    requires
        0 <= k <= n <= ts.len(),
        lift_tuple_spec(ts, m, tb, base, k) is None,
    ensures
        lift_tuple_spec(ts, m, tb, base, n) is None,
    decreases n - k,
{
    if k < n {
        lemma_tuple_fail(ts, m, tb, base, k + 1, n);
    }
}

/// Reads a stored discriminant of width 1, 2 or 4 bytes.
fn read_disc_at(m: &Memory, a: usize, w: usize) -> (r: u64)
    requires
        w == 1 || w == 2 || w == 4,
        a + w <= m@.len(),
    ensures
        read_disc(m@, a as int, w as int) == Some(r as int),
{
    if w == 1 {
        m.read_u8(a) as u64
    } else if w == 2 {
        m.read_u16(a) as u64
    } else {
        m.read_u32(a) as u64
    }
}

/// Lifts `n` list elements of stride `es` from `base`, left to right.
fn lift_list_elems(
    elem: &Ty,
    m: &Memory,
    tbl: &mut ResourceTable,
    base: usize,
    es: usize,
    n: usize,
) -> (r: Result<Vec<Value>, Error>)
    requires
        ty_ok(*elem),
        es as int == size_of(*elem),
        base + n * es <= m@.len(),
    ensures
        (match lift_list_spec(*elem, m@, old(tbl)@, base as int, es as int, n as int) {
            Some(out) => r matches Ok(vals) && seq_view(vals@) == out.0 && final(tbl)@ == out.1,
            None => r is Err,
        }),
        r matches Err(e) ==> lift_err_kind(e.kind),
    decreases *elem, 7int, 0int,
{
    let ghost tb0 = tbl@;
    let total = m.size();
    let mut vals: Vec<Value> = Vec::new();
    let mut k: usize = 0;
    while k < n
        invariant
            k <= n,
            ty_ok(*elem),
            es as int == size_of(*elem),
            base + n * es <= m@.len(),
            m@.len() <= usize::MAX,
            tb0 == old(tbl)@,
            lift_list_spec(*elem, m@, tb0, base as int, es as int, k as int) == Some(
                (seq_view(vals@), tbl@),
            ),
        decreases n - k,
    {
        proof {
            lemma_ty_props(*elem);
            vstd::arithmetic::mul::lemma_mul_inequality(k as int + 1, n as int, es as int);
            assert((k as int) * (es as int) + es as int == (k as int + 1) * (es as int))
                by (nonlinear_arith);
            vstd::arithmetic::mul::lemma_mul_nonnegative(k as int, es as int);
            vstd::arithmetic::mul::lemma_mul_inequality(k as int, n as int, es as int);
        }
        let addr = base + k * es;
        let ghost vals_before = vals@;
        let ghost tb_before = tbl@;
        match lift(elem, m, tbl, addr) {
            Ok((v, _next)) => {
                vals.push(v);
                proof {
                    crate::value::lemma_seq_view_push(vals_before, v);
                }
            },
            Err(e) => {
                proof {
                    assert(lift_list_spec(
                        *elem,
                        m@,
                        tb0,
                        base as int,
                        es as int,
                        k as int + 1,
                    ) is None);
                    lemma_list_fail(*elem, m@, tb0, base as int, es as int, k as int + 1, n as int);
                }
                return Err(e.nested(k));
            },
        }
        k = k + 1;
    }
    Ok(vals)
}

/// Lifts a record's fields at their canonical offsets, left to right.
fn lift_record_fields(fs: &Vec<FieldTy>, m: &Memory, tbl: &mut ResourceTable, base: usize) -> (r:
    Result<Vec<Value>, Error>)
    requires
        fields_ok(fs@),
        base + align_up(fields_end(fs@, fs@.len() as int), fields_align(fs@, fs@.len() as int))
            <= m@.len(),
    ensures
        (match lift_record_spec(fs@, m@, old(tbl)@, base as int, fs@.len() as int) {
            Some(out) => r matches Ok(vals) && seq_view(vals@) == out.0 && final(tbl)@ == out.1,
            None => r is Err,
        }),
        r matches Err(e) ==> lift_err_kind(e.kind),
    decreases *fs, 9int, 0int,
{
    let ghost tb0 = tbl@;
    let total = m.size();
    let mut vals: Vec<Value> = Vec::new();
    let mut end: usize = 0;
    let mut k: usize = 0;
    while k < fs.len()
        invariant
            k <= fs@.len(),
            m@.len() <= usize::MAX,
            fields_ok(fs@),
            base + align_up(fields_end(fs@, fs@.len() as int), fields_align(fs@, fs@.len() as int))
                <= m@.len(),
            end as int == fields_end(fs@, k as int),
            tb0 == old(tbl)@,
            lift_record_spec(fs@, m@, tb0, base as int, k as int) == Some(
                (seq_view(vals@), tbl@),
            ),
        decreases fs@.len() - k,
    {
        proof {
            assert(ty_ok(fs@[k as int].ty));
            lemma_ty_props(fs@[k as int].ty);
            lemma_field_in_record(fs@, k as int);
        }
        let l = match crate::layout::layout_of(&fs[k].ty) {
            Ok(l) => l,
            Err(e) => {
                proof {
                    assert(ty_ok(fs@[k as int].ty));
                    assert(false);
                }
                return Err(Error::new(ErrorKind::UnsupportedSchema));
            },
        };
        let off = match crate::layout::align_up_usize(end, l.align) {
            Some(v) => v,
            None => {
                proof {
                    assert(false);
                }
                return Err(Error::new(ErrorKind::SchemaTooLarge));
            },
        };
        let addr = base + off;
        let ghost vals_before = vals@;
        match lift(&fs[k].ty, m, tbl, addr) {
            Ok((v, _next)) => {
                vals.push(v);
                proof {
                    crate::value::lemma_seq_view_push(vals_before, v);
                }
            },
            Err(e) => {
                proof {
                    assert(lift_record_spec(fs@, m@, tb0, base as int, k as int + 1) is None);
                    lemma_record_fail(fs@, m@, tb0, base as int, k as int + 1, fs@.len() as int);
                }
                return Err(e.nested(k));
            },
        }
        end = off + l.size;
        k = k + 1;
    }
    Ok(vals)
}

/// Lifts a tuple's elements at their canonical offsets, left to right.
fn lift_tuple_elems(ts: &Vec<Ty>, m: &Memory, tbl: &mut ResourceTable, base: usize) -> (r: Result<
    Vec<Value>,
    Error,
>)
    requires
        elems_ok(ts@),
        base + align_up(elems_end(ts@, ts@.len() as int), elems_align(ts@, ts@.len() as int))
            <= m@.len(),
    ensures
        (match lift_tuple_spec(ts@, m@, old(tbl)@, base as int, ts@.len() as int) {
            Some(out) => r matches Ok(vals) && seq_view(vals@) == out.0 && final(tbl)@ == out.1,
            None => r is Err,
        }),
        r matches Err(e) ==> lift_err_kind(e.kind),
    decreases *ts, 9int, 0int,
{
    let ghost tb0 = tbl@;
    let total = m.size();
    let mut vals: Vec<Value> = Vec::new();
    let mut end: usize = 0;
    let mut k: usize = 0;
    while k < ts.len()
        invariant
            k <= ts@.len(),
            m@.len() <= usize::MAX,
            elems_ok(ts@),
            base + align_up(elems_end(ts@, ts@.len() as int), elems_align(ts@, ts@.len() as int))
                <= m@.len(),
            end as int == elems_end(ts@, k as int),
            tb0 == old(tbl)@,
            lift_tuple_spec(ts@, m@, tb0, base as int, k as int) == Some((seq_view(vals@), tbl@)),
        decreases ts@.len() - k,
    {
        proof {
            assert(ty_ok(ts@[k as int]));
            lemma_ty_props(ts@[k as int]);
            lemma_elem_in_tuple(ts@, k as int);
        }
        let l = match crate::layout::layout_of(&ts[k]) {
            Ok(l) => l,
            Err(e) => {
                proof {
                    assert(ty_ok(ts@[k as int]));
                    assert(false);
                }
                return Err(Error::new(ErrorKind::UnsupportedSchema));
            },
        };
        let off = match crate::layout::align_up_usize(end, l.align) {
            Some(v) => v,
            None => {
                proof {
                    assert(false);
                }
                return Err(Error::new(ErrorKind::SchemaTooLarge));
            },
        };
        let addr = base + off;
        let ghost vals_before = vals@;
        match lift(&ts[k], m, tbl, addr) {
            Ok((v, _next)) => {
                vals.push(v);
                proof {
                    crate::value::lemma_seq_view_push(vals_before, v);
                }
            },
            Err(e) => {
                proof {
                    assert(lift_tuple_spec(ts@, m@, tb0, base as int, k as int + 1) is None);
                    lemma_tuple_fail(ts@, m@, tb0, base as int, k as int + 1, ts@.len() as int);
                }
                return Err(e.nested(k));
            },
        }
        end = off + l.size;
        k = k + 1;
    }
    Ok(vals)
}

/// Lifts the payload of an option or result case.
fn lift_res_payload(o: &Option<Box<Ty>>, m: &Memory, tbl: &mut ResourceTable, a: usize) -> (r:
    Result<Option<Box<Value>>, Error>)
    requires
        (match *o {
            Some(b) => ty_ok(*b) && a + size_of(*b) <= m@.len(),
            None => true,
        }),
    ensures
        (match lift_opt_payload_spec(*o, m@, old(tbl)@, a as int) {
            Some(out) => r matches Ok(p) && crate::value::payload_view(p) == out.0
                && final(tbl)@ == out.1,
            None => r is Err,
        }),
        r matches Err(e) ==> lift_err_kind(e.kind),
    decreases *o, 7int, 0int,
{
    match o {
        Some(ty) => {
            match lift(&**ty, m, tbl, a) {
                Ok((v, _next)) => Ok(Some(Box::new(v))),
                Err(e) => Err(e),
            }
        },
        None => Ok(None),
    }
}

/// Builds the flag-name list selected by `bits` over the schema's names.
fn flag_names_of(ns: &Vec<String>, bits: u32) -> (r: Vec<String>)
    requires
        ns@.len() <= 32,
    ensures
        names_view(r@) == flags_names(ns@, bits, ns@.len() as int),
{
    let mut out: Vec<String> = Vec::new();
    let mut k: usize = 0;
    while k < ns.len()
        invariant
            k <= ns@.len(),
            ns@.len() <= 32,
            names_view(out@) == flags_names(ns@, bits, k as int),
        decreases ns@.len() - k,
    {
        let ghost before = out@;
        if (bits >> (k as u32)) & 1 == 1 {
            out.push(ns[k].clone());
            proof {
                crate::value::lemma_names_view_push(before, ns@[k as int]);
                assert(names_view(out@) =~= flags_names(ns@, bits, k as int + 1));
            }
        } else {
            proof {
                assert(names_view(out@) =~= flags_names(ns@, bits, k as int + 1));
            }
        }
        k = k + 1;
    }
    out
}

/// Lifts a string: the `(ptr, len)` pair at `a`, then the bytes it points
/// at, decoded strictly as UTF-8.
fn lift_str_at(m: &Memory, tbl: &mut ResourceTable, a: usize) -> (r: Result<Value, Error>)
    requires
        a + 16 <= m@.len(),
    ensures
        (match lift_spec(Ty::Str, m@, old(tbl)@, a as int) {
            Some(out) => r matches Ok(v) && v@ == out.0 && final(tbl)@ == out.1,
            None => r is Err,
        }),
        r matches Err(e) ==> lift_err_kind(e.kind),
        final(tbl)@ == old(tbl)@,
{
    let total = m.size();
    let ptr64 = m.read_u64(a);
    let len64 = m.read_u64(a + 8);
    if len64 == 0 {
        Ok(Value::Str(String::new()))
    } else {
        if ptr64 > total as u64 || len64 > total as u64 || (ptr64 as usize) > total - (
        len64 as usize) {
            return Err(Error::new(ErrorKind::NullArgument));
        }
        let bytes = m.read_bytes(ptr64 as usize, len64 as usize);
        match lift_string_bytes(bytes) {
            Ok(s) => Ok(Value::Str(s)),
            Err(e) => Err(e),
        }
    }
}

/// Lifts a list value: the `(ptr, len)` pair at `a`, then `len` elements
/// from the data block.
fn lift_list_at(t: &Ty, elem: &Ty, m: &Memory, tbl: &mut ResourceTable, a: usize) -> (r: Result<
    Value,
    Error,
>)
    requires
        ty_ok(*t),
        (match *t {
            Ty::List(b) => *b == *elem,
            _ => false,
        }),
        a + size_of(*t) <= m@.len(),
    ensures
        (match lift_spec(*t, m@, old(tbl)@, a as int) {
            Some(out) => r matches Ok(v) && v@ == out.0 && final(tbl)@ == out.1,
            None => r is Err,
        }),
        r matches Err(e) ==> lift_err_kind(e.kind),
    decreases *elem, 9int, 0int,
{
    let total = m.size();
    let ptr64 = m.read_u64(a);
    let n64 = m.read_u64(a + 8);
    if n64 == 0 {
        let vals: Vec<Value> = Vec::new();
        proof {
            assert(seq_view(vals@) =~= Seq::<ValV>::empty());
        }
        Ok(Value::List(vals))
    } else {
        let l = match crate::layout::layout_of(elem) {
            Ok(l) => l,
            Err(_) => {
                proof {
                    assert(false);
                }
                return Err(Error::new(ErrorKind::UnsupportedSchema));
            },
        };
        proof {
            lemma_ty_props(*elem);
            vstd::arithmetic::mul::lemma_mul_nonnegative(n64 as int, size_of(*elem));
        }
        if ptr64 > total as u64 || n64 > total as u64 {
            return Err(Error::new(ErrorKind::NullArgument));
        }
        let n = n64 as usize;
        let bytes_needed = match n.checked_mul(l.size) {
            Some(v) => v,
            None => {
                proof {
                    assert((n as int) * (l.size as int) > usize::MAX as int);
                    assert(ptr64 as int + (n64 as int) * size_of(*elem) > m@.len());
                }
                return Err(Error::new(ErrorKind::NullArgument));
            },
        };
        proof {
            assert(bytes_needed as int == (n64 as int) * size_of(*elem));
        }
        if bytes_needed > total - (ptr64 as usize) {
            proof {
                assert(ptr64 as int + (n64 as int) * size_of(*elem) > m@.len());
            }
            return Err(Error::new(ErrorKind::NullArgument));
        }
        match lift_list_elems(elem, m, tbl, ptr64 as usize, l.size, n) {
            Ok(vals) => Ok(Value::List(vals)),
            Err(e) => Err(e),
        }
    }
}

/// Lifts a variant: the discriminant of the computed width, then the
/// selected case's payload at the padded payload offset.
fn lift_variant_at(cs: &Vec<CaseTy>, m: &Memory, tbl: &mut ResourceTable, a: usize) -> (r: Result<
    Value,
    Error,
>)
    requires
        ty_ok(Ty::Variant(*cs)),
        a + size_of(Ty::Variant(*cs)) <= m@.len(),
    ensures
        (match lift_spec(Ty::Variant(*cs), m@, old(tbl)@, a as int) {
            Some(out) => r matches Ok(v) && v@ == out.0 && final(tbl)@ == out.1,
            None => r is Err,
        }),
        r matches Err(e) ==> lift_err_kind(e.kind),
    decreases *cs, 9int, 0int,
{
    let ghost t = Ty::Variant(*cs);
    let total = m.size();
    let w = match crate::layout::disc_width(cs.len() as u64) {
        Ok(w) => w,
        Err(_) => {
            proof {
                assert(false);
            }
            return Err(Error::new(ErrorKind::SchemaTooLarge));
        },
    };
    let pm = match crate::layout::layout_cases(cs) {
        Ok(p) => p,
        Err(_) => {
            proof {
                crate::layout::lemma_variant_children_ok(cs@);
                assert(false);
            }
            return Err(Error::new(ErrorKind::UnsupportedSchema));
        },
    };
    proof {
        crate::layout::lemma_cases_props(cs@, cs@.len() as int);
        crate::layout::lemma_payload_in_tagged(
            w as int,
            pm.0 as int,
            cases_size(cs@, cs@.len() as int),
            0,
        );
    }
    let disc64 = read_disc_at(m, a, w);
    if disc64 >= cs.len() as u64 {
        return Err(Error::new(ErrorKind::UnknownDiscriminant));
    }
    let disc = disc64 as usize;
    let po_off = match crate::layout::align_up_usize(w, pm.0) {
        Some(v) => v,
        None => {
            proof {
                assert(false);
            }
            return Err(Error::new(ErrorKind::SchemaTooLarge));
        },
    };
    match &cs[disc].payload {
        Some(pty) => {
            proof {
                crate::layout::lemma_variant_children_ok(cs@);
                lemma_ty_props(cs@[disc as int].payload->Some_0);
                crate::layout::lemma_case_bounds(cs@, disc as int, cs@.len() as int);
                assert(case_size(cs@[disc as int]) == size_of(cs@[disc as int].payload->Some_0));
                crate::layout::lemma_payload_in_tagged(
                    w as int,
                    pm.0 as int,
                    cases_size(cs@, cs@.len() as int),
                    case_size(cs@[disc as int]),
                );
            }
            match lift(pty, m, tbl, a + po_off) {
                Ok((pv, _pnext)) => Ok(Value::Variant(cs[disc].name.clone(), Some(Box::new(pv)))),
                Err(e) => Err(e),
            }
        },
        None => Ok(Value::Variant(cs[disc].name.clone(), None)),
    }
}

/// Lifts an enum: the discriminant alone, mapped to its case name.
fn lift_enum_at(ns: &Vec<String>, m: &Memory, tbl: &mut ResourceTable, a: usize) -> (r: Result<
    Value,
    Error,
>)
    requires
        ty_ok(Ty::Enum(*ns)),
        a + size_of(Ty::Enum(*ns)) <= m@.len(),
    ensures
        (match lift_spec(Ty::Enum(*ns), m@, old(tbl)@, a as int) {
            Some(out) => r matches Ok(v) && v@ == out.0 && final(tbl)@ == out.1,
            None => r is Err,
        }),
        r matches Err(e) ==> lift_err_kind(e.kind),
        final(tbl)@ == old(tbl)@,
{
    let w = match crate::layout::disc_width(ns.len() as u64) {
        Ok(w) => w,
        Err(_) => {
            proof {
                assert(false);
            }
            return Err(Error::new(ErrorKind::SchemaTooLarge));
        },
    };
    let disc64 = read_disc_at(m, a, w);
    if disc64 >= ns.len() as u64 {
        return Err(Error::new(ErrorKind::UnknownDiscriminant));
    }
    Ok(Value::Enum(ns[disc64 as usize].clone()))
}

/// Lifts an option: a one-byte discriminant, then the payload when it is 1.
fn lift_opt_at(t: &Ty, inner: &Ty, m: &Memory, tbl: &mut ResourceTable, a: usize) -> (r: Result<
    Value,
    Error,
>)
    requires
        ty_ok(*t),
        (match *t {
            Ty::Opt(b) => *b == *inner,
            _ => false,
        }),
        a + size_of(*t) <= m@.len(),
    ensures
        (match lift_spec(*t, m@, old(tbl)@, a as int) {
            Some(out) => r matches Ok(v) && v@ == out.0 && final(tbl)@ == out.1,
            None => r is Err,
        }),
        r matches Err(e) ==> lift_err_kind(e.kind),
    decreases *inner, 9int, 0int,
{
    let total = m.size();
    let l = match crate::layout::layout_of(inner) {
        Ok(l) => l,
        Err(_) => {
            proof {
                assert(false);
            }
            return Err(Error::new(ErrorKind::UnsupportedSchema));
        },
    };
    proof {
        lemma_ty_props(*inner);
        crate::layout::lemma_payload_in_tagged(1, l.align as int, l.size as int, l.size as int);
    }
    let b = m.read_u8(a);
    if b == 0 {
        Ok(Value::Opt(None))
    } else if b == 1 {
        let po_off = match crate::layout::align_up_usize(1, l.align) {
            Some(v) => v,
            None => {
                proof {
                    assert(false);
                }
                return Err(Error::new(ErrorKind::SchemaTooLarge));
            },
        };
        match lift(inner, m, tbl, a + po_off) {
            Ok((pv, _pnext)) => Ok(Value::Opt(Some(Box::new(pv)))),
            Err(e) => Err(e),
        }
    } else {
        Err(Error::new(ErrorKind::UnknownDiscriminant))
    }
}

/// Lifts a result: a one-byte discriminant choosing `ok` or `err`, then
/// that case's optional payload.
fn lift_res_at(
    t: &Ty,
    ok_ty: &Option<Box<Ty>>,
    err_ty: &Option<Box<Ty>>,
    m: &Memory,
    tbl: &mut ResourceTable,
    a: usize,
) -> (r: Result<Value, Error>)
    requires
        ty_ok(*t),
        (match *t {
            Ty::Res(o, e) => o == *ok_ty && e == *err_ty,
            _ => false,
        }),
        a + size_of(*t) <= m@.len(),
    ensures
        (match lift_spec(*t, m@, old(tbl)@, a as int) {
            Some(out) => r matches Ok(v) && v@ == out.0 && final(tbl)@ == out.1,
            None => r is Err,
        }),
        r matches Err(e) ==> lift_err_kind(e.kind),
    decreases *t, 5int, 0int,
{
    let total = m.size();
    proof {
        crate::layout::lemma_res_opt_props(*ok_ty);
        crate::layout::lemma_res_opt_props(*err_ty);
    }
    let lo = match crate::layout::layout_opt_payload(ok_ty) {
        Ok(l) => l,
        Err(_) => {
            proof {
                assert(false);
            }
            return Err(Error::new(ErrorKind::UnsupportedSchema));
        },
    };
    let le = match crate::layout::layout_opt_payload(err_ty) {
        Ok(l) => l,
        Err(_) => {
            proof {
                assert(false);
            }
            return Err(Error::new(ErrorKind::UnsupportedSchema));
        },
    };
    let pa = if lo.align > le.align {
        lo.align
    } else {
        le.align
    };
    let ps = if lo.size > le.size {
        lo.size
    } else {
        le.size
    };
    let po_off = match crate::layout::align_up_usize(1, pa) {
        Some(v) => v,
        None => {
            proof {
                crate::layout::lemma_align_up(1, pa as int);
                assert(false);
            }
            return Err(Error::new(ErrorKind::SchemaTooLarge));
        },
    };
    proof {
        crate::layout::lemma_payload_in_tagged(1, pa as int, ps as int, opt_size(*ok_ty));
        crate::layout::lemma_payload_in_tagged(1, pa as int, ps as int, opt_size(*err_ty));
    }
    let b = m.read_u8(a);
    if b == 0 {
        match lift_res_payload(ok_ty, m, tbl, a + po_off) {
            Ok(p) => Ok(Value::Res(Ok(p))),
            Err(e) => Err(e),
        }
    } else if b == 1 {
        match lift_res_payload(err_ty, m, tbl, a + po_off) {
            Ok(p) => Ok(Value::Res(Err(p))),
            Err(e) => Err(e),
        }
    } else {
        Err(Error::new(ErrorKind::UnknownDiscriminant))
    }
}

/// Lifts a flags value: the packed bitmap of the computed width, expanded
/// to the names of its set bits.
fn lift_flags_at(ns: &Vec<String>, m: &Memory, tbl: &mut ResourceTable, a: usize) -> (r: Result<
    Value,
    Error,
>)
    requires
        ty_ok(Ty::Flags(*ns)),
        a + size_of(Ty::Flags(*ns)) <= m@.len(),
    ensures
        (match lift_spec(Ty::Flags(*ns), m@, old(tbl)@, a as int) {
            Some(out) => r matches Ok(v) && v@ == out.0 && final(tbl)@ == out.1,
            None => r is Err,
        }),
        r matches Err(e) ==> lift_err_kind(e.kind),
        final(tbl)@ == old(tbl)@,
{
    let w = match crate::layout::flags_width(ns.len()) {
        Ok(w) => w,
        Err(_) => {
            proof {
                assert(false);
            }
            return Err(Error::new(ErrorKind::UnsupportedSchema));
        },
    };
    let bits64 = read_disc_at(m, a, w);
    proof {
        if w == 4 {
            vstd::bytes::lemma_auto_spec_u32_to_from_le_bytes();
        }
    }
    let names = flag_names_of(ns, bits64 as u32);
    Ok(Value::Flags(names))
}

/// Lifts an owned handle: reads the representation, checks the token's
/// resource-type identity, and moves the entry out of the table.
fn lift_own_at(rid: u32, m: &Memory, tbl: &mut ResourceTable, a: usize) -> (r: Result<Value, Error>)
    requires
        a + 4 <= m@.len(),
    ensures
        (match lift_spec(Ty::Own(rid), m@, old(tbl)@, a as int) {
            Some(out) => r matches Ok(v) && v@ == out.0 && final(tbl)@ == out.1,
            None => r is Err,
        }),
        r matches Err(e) ==> lift_err_kind(e.kind),
{
    let rep = m.read_u32(a);
    let tok = match tbl.get(rep) {
        Ok(tok) => tok,
        Err(e) => {
            return Err(e);
        },
    };
    if tok.ty != rid {
        return Err(Error::new(ErrorKind::ResourceTypeMismatch));
    }
    match tbl.remove(rep) {
        Ok(tok2) => Ok(Value::Own(tok2)),
        Err(e) => {
            proof {
                assert(false);
            }
            Err(e)
        },
    }
}

/// Lifts a borrowed handle: reads the representation and the token without
/// removing the entry.
fn lift_borrow_at(rid: u32, m: &Memory, tbl: &mut ResourceTable, a: usize) -> (r: Result<
    Value,
    Error,
>)
    requires
        a + 4 <= m@.len(),
    ensures
        (match lift_spec(Ty::Borrow(rid), m@, old(tbl)@, a as int) {
            Some(out) => r matches Ok(v) && v@ == out.0 && final(tbl)@ == out.1,
            None => r is Err,
        }),
        r matches Err(e) ==> lift_err_kind(e.kind),
        final(tbl)@ == old(tbl)@,
{
    let rep = m.read_u32(a);
    let tok = match tbl.get(rep) {
        Ok(tok) => tok,
        Err(e) => {
            return Err(e);
        },
    };
    if tok.ty != rid {
        return Err(Error::new(ErrorKind::ResourceTypeMismatch));
    }
    Ok(Value::Borrow(tok))
}

/// Reads the typed value stored at address `a`, exactly as [`lift_spec`]
/// denotes it: the structural inverse of lowering.  Always advances by the
/// type's full size, whichever case or payload was found.  An owned handle
/// moves its table entry out; a borrowed one leaves it in place.
pub fn lift(t: &Ty, m: &Memory, tbl: &mut ResourceTable, a: usize) -> (r: Result<
    (Value, usize),
    Error,
>)
    requires
        ty_ok(*t),
        a + size_of(*t) <= m@.len(),
    ensures
        (match lift_spec(*t, m@, old(tbl)@, a as int) {
            Some(out) => r matches Ok(p) && p.0@ == out.0 && final(tbl)@ == out.1 && p.1 as int == a
                + size_of(*t),
            None => r is Err,
        }),
        r matches Err(e) ==> lift_err_kind(e.kind),
    decreases *t, 6int, 0int,
{
    let lt = match crate::layout::layout_of(t) {
        Ok(l) => l,
        Err(_) => {
            proof {
                assert(false);
            }
            return Err(Error::new(ErrorKind::UnsupportedSchema));
        },
    };
    let mtotal = m.size();
    let next = a + lt.size;
    let v = match t {
        Ty::Bool => {
            let b = m.read_u8(a);
            if b == 0 {
                Value::Bool(false)
            } else if b == 1 {
                Value::Bool(true)
            } else {
                return Err(Error::new(ErrorKind::InvalidBool));
            }
        },
        Ty::S8 => Value::S8(#[verifier::truncate] (m.read_u8(a) as i8)),
        Ty::U8 => Value::U8(m.read_u8(a)),
        Ty::S16 => Value::S16(#[verifier::truncate] (m.read_u16(a) as i16)),
        Ty::U16 => Value::U16(m.read_u16(a)),
        Ty::S32 => Value::S32(#[verifier::truncate] (m.read_u32(a) as i32)),
        Ty::U32 => Value::U32(m.read_u32(a)),
        Ty::S64 => Value::S64(#[verifier::truncate] (m.read_u64(a) as i64)),
        Ty::U64 => Value::U64(m.read_u64(a)),
        Ty::F32 => Value::F32Bits(m.read_u32(a)),
        Ty::F64 => Value::F64Bits(m.read_u64(a)),
        Ty::Char => {
            let u = m.read_u32(a);
            match char_from_scalar(u) {
                Some(c) => {
                    proof {
                        vstd::utf8::char_u32_cast(c, u);
                    }
                    Value::Char(c)
                },
                None => {
                    return Err(Error::new(ErrorKind::InvalidChar));
                },
            }
        },
        Ty::Str => lift_str_at(m, tbl, a)?,
        Ty::List(elem) => {
            proof {
                assert(decreases_to!(*t => (*t)->List_0));
            }
            lift_list_at(t, &**elem, m, tbl, a)?
        },
        Ty::Record(fs) => {
            proof {
                assert(decreases_to!(*t => (*t)->Record_0));
                assert((*t)->Record_0 == *fs);
                crate::layout::lemma_record_children_ok(fs@);
            }
            match lift_record_fields(fs, m, tbl, a) {
                Ok(vals) => Value::Record(vals),
                Err(e) => {
                    return Err(e);
                },
            }
        },
        Ty::Tuple(ts) => {
            proof {
                assert(decreases_to!(*t => (*t)->Tuple_0));
                assert((*t)->Tuple_0 == *ts);
                crate::layout::lemma_tuple_children_ok(ts@);
            }
            match lift_tuple_elems(ts, m, tbl, a) {
                Ok(vals) => Value::Tuple(vals),
                Err(e) => {
                    return Err(e);
                },
            }
        },
        Ty::Variant(cs) => {
            proof {
                assert(decreases_to!(*t => (*t)->Variant_0));
                assert((*t)->Variant_0 == *cs);
            }
            lift_variant_at(cs, m, tbl, a)?
        },
        Ty::Enum(ns) => lift_enum_at(ns, m, tbl, a)?,
        Ty::Opt(inner) => {
            proof {
                assert(decreases_to!(*t => (*t)->Opt_0));
            }
            lift_opt_at(t, &**inner, m, tbl, a)?
        },
        Ty::Res(ok_ty, err_ty) => {
            proof {
                assert(decreases_to!(*t => (*t)->Res_0));
                assert(decreases_to!(*t => (*t)->Res_1));
            }
            lift_res_at(t, ok_ty, err_ty, m, tbl, a)?
        },
        Ty::Flags(ns) => lift_flags_at(ns, m, tbl, a)?,
        Ty::Own(rid) => lift_own_at(*rid, m, tbl, a)?,
        Ty::Borrow(rid) => lift_borrow_at(*rid, m, tbl, a)?,
    };
    Ok((v, next))
}


} // verus!

verus! {

/// What lifting from the flattened argument vector denotes: the typed
/// value carried by the cells starting at `i`, together with the table as
/// lifting leaves it.  Small integers arrive widened inside a cell and are
/// range-checked; strings and lists arrive as `(ptr, len)` cell pairs whose
/// data lives in memory; a composite consumes its cells left to right, a
/// tagged former one discriminant cell and then the case's cells.
pub open spec fn lift_param_spec(
    t: Ty,
    cells: Seq<u64>,
    m: Seq<u8>,
    tb: Seq<Option<Token>>,
    i: int,
) -> Option<(ValV, Seq<Option<Token>>)>
    decreases t, 0int, 0int,
{
    if i < 0 || i + flat_of(t) > cells.len() {
        None
    } else {
        match t {
            Ty::Bool => Some((ValV::Bool((cells[i] as u32) != 0), tb)),
            Ty::S8 => {
                let x = (cells[i] as u32) as i32;
                if -128 <= x <= 127 {
                    Some((ValV::S8(x as i8), tb))
                } else {
                    None
                }
            },
            Ty::U8 => {
                let x = cells[i] as u32;
                if x <= 255 {
                    Some((ValV::U8(x as u8), tb))
                } else {
                    None
                }
            },
            Ty::S16 => {
                let x = (cells[i] as u32) as i32;
                if -32768 <= x <= 32767 {
                    Some((ValV::S16(x as i16), tb))
                } else {
                    None
                }
            },
            Ty::U16 => {
                let x = cells[i] as u32;
                if x <= 65535 {
                    Some((ValV::U16(x as u16), tb))
                } else {
                    None
                }
            },
            Ty::S32 => Some((ValV::S32((cells[i] as u32) as i32), tb)),
            Ty::U32 => Some((ValV::U32(cells[i] as u32), tb)),
            Ty::S64 => Some((ValV::S64(cells[i] as i64), tb)),
            Ty::U64 => Some((ValV::U64(cells[i]), tb)),
            Ty::F32 => Some((ValV::F32Bits(cells[i] as u32), tb)),
            Ty::F64 => Some((ValV::F64Bits(cells[i]), tb)),
            Ty::Char => {
                let u = cells[i] as u32;
                if is_scalar(u) {
                    Some((ValV::Char(u as char), tb))
                } else {
                    None
                }
            },
            Ty::Str => {
                let ptr = cells[i] as int;
                let len = cells[i + 1] as int;
                if len == 0 {
                    Some((ValV::Str(Seq::empty()), tb))
                } else if ptr + len <= m.len() {
                    if valid_utf8(m.subrange(ptr, ptr + len)) {
                        Some((ValV::Str(decode_utf8(m.subrange(ptr, ptr + len))), tb))
                    } else {
                        None
                    }
                } else {
                    None
                }
            },
            Ty::List(elem) => {
                let ptr = cells[i] as int;
                let n = cells[i + 1] as int;
                if n == 0 {
                    Some((ValV::List(Seq::empty()), tb))
                } else if n <= m.len() && ptr + n * size_of(*elem) <= m.len() {
                    match lift_list_spec(*elem, m, tb, ptr, size_of(*elem), n) {
                        Some((vals, tb2)) => Some((ValV::List(vals), tb2)),
                        None => None,
                    }
                } else {
                    None
                }
            },
            Ty::Record(fs) => {
                match lift_param_record_spec(fs@, cells, m, tb, i, fs@.len() as int) {
                    Some((vals, tb2)) => Some((ValV::Record(vals), tb2)),
                    None => None,
                }
            },
            Ty::Tuple(ts) => {
                match lift_param_tuple_spec(ts@, cells, m, tb, i, ts@.len() as int) {
                    Some((vals, tb2)) => Some((ValV::Tuple(vals), tb2)),
                    None => None,
                }
            },
            Ty::Variant(cs) => {
                let disc = cells[i] as int;
                if disc < cs@.len() {
                    match cs@[disc].payload {
                        Some(ty) => {
                            match lift_param_spec(ty, cells, m, tb, i + 1) {
                                Some((pv, tb2)) => Some(
                                    (ValV::Variant(cs@[disc].name@, seq![pv]), tb2),
                                ),
                                None => None,
                            }
                        },
                        None => Some((ValV::Variant(cs@[disc].name@, Seq::empty()), tb)),
                    }
                } else {
                    None
                }
            },
            Ty::Enum(ns) => {
                let disc = cells[i] as int;
                if disc < ns@.len() {
                    Some((ValV::Enum(ns@[disc]@), tb))
                } else {
                    None
                }
            },
            Ty::Opt(inner) => {
                let disc = cells[i];
                if disc == 0 {
                    Some((ValV::Opt(Seq::empty()), tb))
                } else if disc == 1 {
                    match lift_param_spec(*inner, cells, m, tb, i + 1) {
                        Some((pv, tb2)) => Some((ValV::Opt(seq![pv]), tb2)),
                        None => None,
                    }
                } else {
                    None
                }
            },
            Ty::Res(ok, err) => {
                let disc = cells[i];
                if disc == 0 {
                    match lift_param_opt_spec(ok, cells, m, tb, i + 1) {
                        Some((pv, tb2)) => Some((ValV::Res(false, pv), tb2)),
                        None => None,
                    }
                } else if disc == 1 {
                    match lift_param_opt_spec(err, cells, m, tb, i + 1) {
                        Some((pv, tb2)) => Some((ValV::Res(true, pv), tb2)),
                        None => None,
                    }
                } else {
                    None
                }
            },
            Ty::Flags(ns) => Some(
                (ValV::Flags(flags_names(ns@, cells[i] as u32, ns@.len() as int)), tb),
            ),
            Ty::Own(rid) => {
                let rep = (cells[i] as u32) as int;
                if rep < tb.len() {
                    match tb[rep] {
                        Some(tok) => {
                            if tok.ty == rid {
                                Some((ValV::Own(tok), tb.update(rep, None)))
                            } else {
                                None
                            }
                        },
                        None => None,
                    }
                } else {
                    None
                }
            },
            Ty::Borrow(rid) => {
                let rep = (cells[i] as u32) as int;
                if rep < tb.len() {
                    match tb[rep] {
                        Some(tok) => {
                            if tok.ty == rid {
                                Some((ValV::Borrow(tok), tb))
                            } else {
                                None
                            }
                        },
                        None => None,
                    }
                } else {
                    None
                }
            },
        }
    }
}

/// Lifts the first `k` record fields from their cell positions.
pub open spec fn lift_param_record_spec(
    fs: Seq<FieldTy>,
    cells: Seq<u64>,
    m: Seq<u8>,
    tb: Seq<Option<Token>>,
    i: int,
    k: int,
) -> Option<(Seq<ValV>, Seq<Option<Token>>)>
    decreases fs, 1int, k,
{
    if k <= 0 || k > fs.len() {
        Some((Seq::empty(), tb))
    } else {
        match lift_param_record_spec(fs, cells, m, tb, i, k - 1) {
            Some((vals, tb1)) => {
                match lift_param_spec(fs[k - 1].ty, cells, m, tb1, i + fields_flat(fs, k - 1)) {
                    Some((v, tb2)) => Some((vals.push(v), tb2)),
                    None => None,
                }
            },
            None => None,
        }
    }
}

/// Lifts the first `k` tuple elements from their cell positions.
pub open spec fn lift_param_tuple_spec(
    ts: Seq<Ty>,
    cells: Seq<u64>,
    m: Seq<u8>,
    tb: Seq<Option<Token>>,
    i: int,
    k: int,
) -> Option<(Seq<ValV>, Seq<Option<Token>>)>
    decreases ts, 1int, k,
{
    if k <= 0 || k > ts.len() {
        Some((Seq::empty(), tb))
    } else {
        match lift_param_tuple_spec(ts, cells, m, tb, i, k - 1) {
            Some((vals, tb1)) => {
                match lift_param_spec(ts[k - 1], cells, m, tb1, i + elems_flat(ts, k - 1)) {
                    Some((v, tb2)) => Some((vals.push(v), tb2)),
                    None => None,
                }
            },
            None => None,
        }
    }
}

/// Lifts the optional payload of a result case from the cells at `i`.
pub open spec fn lift_param_opt_spec(
    o: Option<Box<Ty>>,
    cells: Seq<u64>,
    m: Seq<u8>,
    tb: Seq<Option<Token>>,
    i: int,
) -> Option<(Seq<ValV>, Seq<Option<Token>>)>
    decreases o, 1int, 0int,
{
    match o {
        Some(ty) => {
            match lift_param_spec(*ty, cells, m, tb, i) {
                Some((v, tb2)) => Some((seq![v], tb2)),
                None => None,
            }
        },
        None => Some((Seq::empty(), tb)),
    }
}

} // verus!

verus! {

/// The error kinds an argument-cell lift can surface.
pub open spec fn param_err_kind(k: ErrorKind) -> bool {
    ||| lift_err_kind(k)
    ||| k == ErrorKind::IntegerOutOfRange
}

/// Once a record field fails to lift from cells, the whole record fails.
proof fn lemma_param_record_fail(
    fs: Seq<FieldTy>,
    cells: Seq<u64>,
    m: Seq<u8>,
    tb: Seq<Option<Token>>,
    i: int,
    k: int,
    n: int,
)
    requires
        0 <= k <= n <= fs.len(),
        lift_param_record_spec(fs, cells, m, tb, i, k) is None,
    ensures
        lift_param_record_spec(fs, cells, m, tb, i, n) is None,
    decreases n - k,
{
    if k < n {
        lemma_param_record_fail(fs, cells, m, tb, i, k + 1, n);
    }
}

/// Once a tuple element fails to lift from cells, the whole tuple fails.
proof fn lemma_param_tuple_fail(
    ts: Seq<Ty>,
    cells: Seq<u64>,
    m: Seq<u8>,
    tb: Seq<Option<Token>>,
    i: int,
    k: int,
    n: int,
)
    requires
        0 <= k <= n <= ts.len(),
        lift_param_tuple_spec(ts, cells, m, tb, i, k) is None,
    ensures
        lift_param_tuple_spec(ts, cells, m, tb, i, n) is None,
    decreases n - k,
{
    if k < n {
        lemma_param_tuple_fail(ts, cells, m, tb, i, k + 1, n);
    }
}

/// Lifts a record's fields from their cell positions, left to right.
fn lift_param_record_fields(
    fs: &Vec<FieldTy>,
    cells: &Vec<u64>,
    m: &Memory,
    tbl: &mut ResourceTable,
    i: usize,
) -> (r: Result<Vec<Value>, Error>)
    requires
        fields_ok(fs@),
        i + fields_flat(fs@, fs@.len() as int) <= cells@.len(),
    ensures
        (match lift_param_record_spec(fs@, cells@, m@, old(tbl)@, i as int, fs@.len() as int) {
            Some(out) => r matches Ok(vals) && seq_view(vals@) == out.0 && final(tbl)@ == out.1,
            None => r is Err,
        }),
        r matches Err(e) ==> param_err_kind(e.kind),
    decreases *fs, 9int, 0int,
{
    let ghost tb0 = tbl@;
    let total = cells.len();
    let mut vals: Vec<Value> = Vec::new();
    let mut pos: usize = i;
    let mut k: usize = 0;
    while k < fs.len()
        invariant
            k <= fs@.len(),
            fields_ok(fs@),
            i + fields_flat(fs@, fs@.len() as int) <= cells@.len(),
            cells@.len() <= usize::MAX,
            pos as int == i + fields_flat(fs@, k as int),
            tb0 == old(tbl)@,
            lift_param_record_spec(fs@, cells@, m@, tb0, i as int, k as int) == Some(
                (seq_view(vals@), tbl@),
            ),
        decreases fs@.len() - k,
    {
        proof {
            assert(ty_ok(fs@[k as int].ty));
            lemma_ty_props(fs@[k as int].ty);
            crate::layout::lemma_fields_props(fs@, k as int);
            crate::layout::lemma_fields_flat_mono(fs@, k as int + 1, fs@.len() as int);
            assert(decreases_to!(*fs => fs@));
            assert(decreases_to!(fs@ => fs@[k as int]));
            assert(decreases_to!(fs@[k as int] => fs@[k as int].ty));
            assert(decreases_to!(*fs => fs@[k as int].ty));
        }
        let fl = match crate::layout::layout_of(&fs[k].ty) {
            Ok(l) => l,
            Err(_) => {
                proof {
                    assert(false);
                }
                return Err(Error::new(ErrorKind::UnsupportedSchema));
            },
        };
        let ghost vals_before = vals@;
        match lift_param(&fs[k].ty, cells, m, tbl, pos) {
            Ok((v, _next)) => {
                vals.push(v);
                proof {
                    crate::value::lemma_seq_view_push(vals_before, v);
                }
            },
            Err(e) => {
                proof {
                    assert(lift_param_record_spec(
                        fs@,
                        cells@,
                        m@,
                        tb0,
                        i as int,
                        k as int + 1,
                    ) is None);
                    lemma_param_record_fail(
                        fs@,
                        cells@,
                        m@,
                        tb0,
                        i as int,
                        k as int + 1,
                        fs@.len() as int,
                    );
                }
                return Err(e.nested(k));
            },
        }
        pos = pos + fl.flat;
        k = k + 1;
    }
    Ok(vals)
}

/// Lifts a tuple's elements from their cell positions, left to right.
fn lift_param_tuple_elems(
    ts: &Vec<Ty>,
    cells: &Vec<u64>,
    m: &Memory,
    tbl: &mut ResourceTable,
    i: usize,
) -> (r: Result<Vec<Value>, Error>)
    requires
        elems_ok(ts@),
        i + elems_flat(ts@, ts@.len() as int) <= cells@.len(),
    ensures
        (match lift_param_tuple_spec(ts@, cells@, m@, old(tbl)@, i as int, ts@.len() as int) {
            Some(out) => r matches Ok(vals) && seq_view(vals@) == out.0 && final(tbl)@ == out.1,
            None => r is Err,
        }),
        r matches Err(e) ==> param_err_kind(e.kind),
    decreases *ts, 9int, 0int,
{
    let ghost tb0 = tbl@;
    let total = cells.len();
    let mut vals: Vec<Value> = Vec::new();
    let mut pos: usize = i;
    let mut k: usize = 0;
    while k < ts.len()
        invariant
            k <= ts@.len(),
            elems_ok(ts@),
            i + elems_flat(ts@, ts@.len() as int) <= cells@.len(),
            cells@.len() <= usize::MAX,
            pos as int == i + elems_flat(ts@, k as int),
            tb0 == old(tbl)@,
            lift_param_tuple_spec(ts@, cells@, m@, tb0, i as int, k as int) == Some(
                (seq_view(vals@), tbl@),
            ),
        decreases ts@.len() - k,
    {
        proof {
            assert(ty_ok(ts@[k as int]));
            lemma_ty_props(ts@[k as int]);
            crate::layout::lemma_elems_props(ts@, k as int);
            crate::layout::lemma_elems_flat_mono(ts@, k as int + 1, ts@.len() as int);
            assert(decreases_to!(*ts => ts@));
            assert(decreases_to!(ts@ => ts@[k as int]));
            assert(decreases_to!(*ts => ts@[k as int]));
        }
        let fl = match crate::layout::layout_of(&ts[k]) {
            Ok(l) => l,
            Err(_) => {
                proof {
                    assert(false);
                }
                return Err(Error::new(ErrorKind::UnsupportedSchema));
            },
        };
        let ghost vals_before = vals@;
        match lift_param(&ts[k], cells, m, tbl, pos) {
            Ok((v, _next)) => {
                vals.push(v);
                proof {
                    crate::value::lemma_seq_view_push(vals_before, v);
                }
            },
            Err(e) => {
                proof {
                    assert(lift_param_tuple_spec(
                        ts@,
                        cells@,
                        m@,
                        tb0,
                        i as int,
                        k as int + 1,
                    ) is None);
                    lemma_param_tuple_fail(
                        ts@,
                        cells@,
                        m@,
                        tb0,
                        i as int,
                        k as int + 1,
                        ts@.len() as int,
                    );
                }
                return Err(e.nested(k));
            },
        }
        pos = pos + fl.flat;
        k = k + 1;
    }
    Ok(vals)
}

/// Reads the typed value carried by the argument cells starting at `i`,
/// exactly as [`lift_param_spec`] denotes it, and always advances by the
/// type's full flattened-cell count, whichever case was present.
#[verifier::rlimit(100)]
pub fn lift_param(t: &Ty, cells: &Vec<u64>, m: &Memory, tbl: &mut ResourceTable, i: usize) -> (r:
    Result<(Value, usize), Error>)
    requires
        ty_ok(*t),
    ensures
        (match lift_param_spec(*t, cells@, m@, old(tbl)@, i as int) {
            Some(out) => r matches Ok(p) && p.0@ == out.0 && final(tbl)@ == out.1 && p.1 as int == i
                + flat_of(*t),
            None => r is Err,
        }),
        r matches Err(e) ==> param_err_kind(e.kind),
        (match *t {
            Ty::Char => i + 1 <= cells@.len() && !is_scalar(cells@[i as int] as u32) ==> (
            r matches Err(e) && e.kind == ErrorKind::InvalidChar),
            Ty::U8 => i + 1 <= cells@.len() && (cells@[i as int] as u32) > 255 ==> (
            r matches Err(e) && e.kind == ErrorKind::IntegerOutOfRange),
            _ => true,
        }),
    decreases *t, 6int, 0int,
{
    let lt = match crate::layout::layout_of(t) {
        Ok(l) => l,
        Err(_) => {
            proof {
                assert(false);
            }
            return Err(Error::new(ErrorKind::UnsupportedSchema));
        },
    };
    let total = cells.len();
    if lt.flat > total || i > total - lt.flat {
        return Err(Error::new(ErrorKind::NullArgument));
    }
    let next = i + lt.flat;
    match t {
        Ty::Bool | Ty::S8 | Ty::U8 | Ty::S16 | Ty::U16 | Ty::S32 | Ty::U32 | Ty::S64 | Ty::U64
            | Ty::F32 | Ty::F64 | Ty::Char => {
            match lift_param_prim(t, cells, m, tbl, i) {
                Ok(v) => Ok((v, next)),
                Err(e) => Err(e),
            }
        },
        Ty::Str => {
            match lift_param_str_cells(cells[i], cells[i + 1], m, tbl) {
                Ok(v) => Ok((v, next)),
                Err(e) => Err(e),
            }
        },
        Ty::List(elem) => {
            proof {
                assert(decreases_to!(*t => (*t)->List_0));
            }
            match lift_param_list_cells(t, &**elem, cells[i], cells[i + 1], m, tbl) {
                Ok(v) => Ok((v, next)),
                Err(e) => Err(e),
            }
        },
        Ty::Record(fs) => {
            proof {
                assert(decreases_to!(*t => (*t)->Record_0));
                assert((*t)->Record_0 == *fs);
                crate::layout::lemma_record_children_ok(fs@);
            }
            match lift_param_record_fields(fs, cells, m, tbl, i) {
                Ok(vals) => Ok((Value::Record(vals), next)),
                Err(e) => Err(e),
            }
        },
        Ty::Tuple(ts) => {
            proof {
                assert(decreases_to!(*t => (*t)->Tuple_0));
                assert((*t)->Tuple_0 == *ts);
                crate::layout::lemma_tuple_children_ok(ts@);
            }
            match lift_param_tuple_elems(ts, cells, m, tbl, i) {
                Ok(vals) => Ok((Value::Tuple(vals), next)),
                Err(e) => Err(e),
            }
        },
        Ty::Variant(cs) => {
            proof {
                assert(decreases_to!(*t => (*t)->Variant_0));
                assert((*t)->Variant_0 == *cs);
            }
            match lift_param_variant_cells(cs, cells, m, tbl, i) {
                Ok(v) => Ok((v, next)),
                Err(e) => Err(e),
            }
        },
        Ty::Enum(ns) => {
            let disc64 = cells[i];
            if disc64 >= ns.len() as u64 {
                return Err(Error::new(ErrorKind::UnknownDiscriminant));
            }
            Ok((Value::Enum(ns[disc64 as usize].clone()), next))
        },
        Ty::Opt(inner) => {
            proof {
                assert(decreases_to!(*t => (*t)->Opt_0));
            }
            match lift_param_opt_cells(t, &**inner, cells, m, tbl, i) {
                Ok(v) => Ok((v, next)),
                Err(e) => Err(e),
            }
        },
        Ty::Res(ok_ty, err_ty) => {
            proof {
                assert(decreases_to!(*t => (*t)->Res_0));
                assert(decreases_to!(*t => (*t)->Res_1));
                crate::layout::lemma_res_opt_props(*ok_ty);
                crate::layout::lemma_res_opt_props(*err_ty);
            }
            let disc64 = cells[i];
            if disc64 == 0 {
                match lift_param_res_payload(ok_ty, cells, m, tbl, i + 1) {
                    Ok(p) => Ok((Value::Res(Ok(p)), next)),
                    Err(e) => Err(e),
                }
            } else if disc64 == 1 {
                match lift_param_res_payload(err_ty, cells, m, tbl, i + 1) {
                    Ok(p) => Ok((Value::Res(Err(p)), next)),
                    Err(e) => Err(e),
                }
            } else {
                Err(Error::new(ErrorKind::UnknownDiscriminant))
            }
        },
        Ty::Flags(ns) => {
            let bits = #[verifier::truncate] (cells[i] as u32);
            let names = flag_names_of(ns, bits);
            Ok((Value::Flags(names), next))
        },
        Ty::Own(rid) => {
            match lift_own_cell(*rid, cells[i], tbl) {
                Ok(v) => Ok((v, next)),
                Err(e) => Err(e),
            }
        },
        Ty::Borrow(rid) => {
            match lift_borrow_cell(*rid, cells[i], tbl) {
                Ok(v) => Ok((v, next)),
                Err(e) => Err(e),
            }
        },
    }
}


/// Lifts a primitive from its single widened cell, range-checking narrow
/// integers.
fn lift_param_prim(t: &Ty, cells: &Vec<u64>, m: &Memory, tbl: &mut ResourceTable, i: usize) -> (r:
    Result<Value, Error>)
    requires
        crate::lower::is_prim(*t),
        i + 1 <= cells@.len(),
    ensures
        (match lift_param_spec(*t, cells@, m@, old(tbl)@, i as int) {
            Some(out) => r matches Ok(v) && v@ == out.0 && final(tbl)@ == out.1,
            None => r is Err,
        }),
        r matches Err(e) ==> param_err_kind(e.kind),
        final(tbl)@ == old(tbl)@,
        (match *t {
            Ty::Char => i + 1 <= cells@.len() && !is_scalar(cells@[i as int] as u32) ==> (
            r matches Err(e) && e.kind == ErrorKind::InvalidChar),
            Ty::U8 => i + 1 <= cells@.len() && (cells@[i as int] as u32) > 255 ==> (
            r matches Err(e) && e.kind == ErrorKind::IntegerOutOfRange),
            _ => true,
        }),
{
    proof {
        lemma_ty_props(*t);
        assert(flat_of(*t) == 1);
    }
    match t {
        Ty::Bool => {
            let b = (cells[i] as u32) != 0;
            Ok(Value::Bool(b))
        },
        Ty::S8 => {
            let x = #[verifier::truncate] ((cells[i] as u32) as i32);
            if -128 <= x && x <= 127 {
                Ok(Value::S8(#[verifier::truncate] (x as i8)))
            } else {
                Err(Error::new(ErrorKind::IntegerOutOfRange))
            }
        },
        Ty::U8 => {
            let x = #[verifier::truncate] (cells[i] as u32);
            if x <= 255 {
                Ok(Value::U8(x as u8))
            } else {
                Err(Error::new(ErrorKind::IntegerOutOfRange))
            }
        },
        Ty::S16 => {
            let x = #[verifier::truncate] ((cells[i] as u32) as i32);
            if -32768 <= x && x <= 32767 {
                Ok(Value::S16(#[verifier::truncate] (x as i16)))
            } else {
                Err(Error::new(ErrorKind::IntegerOutOfRange))
            }
        },
        Ty::U16 => {
            let x = #[verifier::truncate] (cells[i] as u32);
            if x <= 65535 {
                Ok(Value::U16(x as u16))
            } else {
                Err(Error::new(ErrorKind::IntegerOutOfRange))
            }
        },
        Ty::S32 => Ok(Value::S32(#[verifier::truncate] ((cells[i] as u32) as i32))),
        Ty::U32 => Ok(Value::U32(#[verifier::truncate] (cells[i] as u32))),
        Ty::S64 => Ok(Value::S64(#[verifier::truncate] (cells[i] as i64))),
        Ty::U64 => Ok(Value::U64(cells[i])),
        Ty::F32 => Ok(Value::F32Bits(#[verifier::truncate] (cells[i] as u32))),
        Ty::F64 => Ok(Value::F64Bits(cells[i])),
        Ty::Char => {
            let u = #[verifier::truncate] (cells[i] as u32);
            match char_from_scalar(u) {
                Some(c) => {
                    proof {
                        vstd::utf8::char_u32_cast(c, u);
                    }
                    Ok(Value::Char(c))
                },
                None => Err(Error::new(ErrorKind::InvalidChar)),
            }
        },
        _ => {
            proof {
                assert(false);
            }
            Err(Error::new(ErrorKind::UnsupportedSchema))
        },
    }
}

/// Lifts the optional payload of a result case from cells.
fn lift_param_res_payload(
    o: &Option<Box<Ty>>,
    cells: &Vec<u64>,
    m: &Memory,
    tbl: &mut ResourceTable,
    i: usize,
) -> (r: Result<Option<Box<Value>>, Error>)
    requires
        (match *o {
            Some(b) => ty_ok(*b),
            None => true,
        }),
    ensures
        (match lift_param_opt_spec(*o, cells@, m@, old(tbl)@, i as int) {
            Some(out) => r matches Ok(p) && crate::value::payload_view(p) == out.0
                && final(tbl)@ == out.1,
            None => r is Err,
        }),
        r matches Err(e) ==> param_err_kind(e.kind),
    decreases *o, 7int, 0int,
{
    match o {
        Some(ty) => {
            proof {
                assert(decreases_to!(*o => (*o)->Some_0));
            }
            match lift_param(&**ty, cells, m, tbl, i) {
                Ok((v, _next)) => Ok(Some(Box::new(v))),
                Err(e) => Err(e),
            }
        },
        None => Ok(None),
    }
}

} // verus!

verus! {

/// Lifts a string from a `(ptr, len)` cell pair whose data is in memory.
fn lift_param_str_cells(ptr64: u64, len64: u64, m: &Memory, tbl: &mut ResourceTable) -> (r: Result<
    Value,
    Error,
>)
    ensures
        (match lift_param_spec(Ty::Str, seq![ptr64, len64], m@, old(tbl)@, 0) {
            Some(out) => r matches Ok(v) && v@ == out.0 && final(tbl)@ == out.1,
            None => r is Err,
        }),
        r matches Err(e) ==> param_err_kind(e.kind),
        final(tbl)@ == old(tbl)@,
{
    if len64 == 0 {
        Ok(Value::Str(String::new()))
    } else {
        let msize = m.size();
        if ptr64 > msize as u64 || len64 > msize as u64 || (ptr64 as usize) > msize - (
        len64 as usize) {
            return Err(Error::new(ErrorKind::NullArgument));
        }
        let bytes = m.read_bytes(ptr64 as usize, len64 as usize);
        match lift_string_bytes(bytes) {
            Ok(s) => Ok(Value::Str(s)),
            Err(e) => Err(e),
        }
    }
}

/// Lifts a list from a `(ptr, len)` cell pair whose elements are in memory.
fn lift_param_list_cells(
    t: &Ty,
    elem: &Ty,
    ptr64: u64,
    n64: u64,
    m: &Memory,
    tbl: &mut ResourceTable,
) -> (r: Result<Value, Error>)
    requires
        ty_ok(*t),
        (match *t {
            Ty::List(b) => *b == *elem,
            _ => false,
        }),
    ensures
        (match lift_param_spec(*t, seq![ptr64, n64], m@, old(tbl)@, 0) {
            Some(out) => r matches Ok(v) && v@ == out.0 && final(tbl)@ == out.1,
            None => r is Err,
        }),
        r matches Err(e) ==> param_err_kind(e.kind),
    decreases *elem, 9int, 1int,
{
    if n64 == 0 {
        let vals: Vec<Value> = Vec::new();
        proof {
            assert(seq_view(vals@) =~= Seq::<ValV>::empty());
        }
        Ok(Value::List(vals))
    } else {
        let l = match crate::layout::layout_of(elem) {
            Ok(l) => l,
            Err(_) => {
                proof {
                    assert(false);
                }
                return Err(Error::new(ErrorKind::UnsupportedSchema));
            },
        };
        proof {
            lemma_ty_props(*elem);
            vstd::arithmetic::mul::lemma_mul_nonnegative(n64 as int, size_of(*elem));
        }
        let msize = m.size();
        if ptr64 > msize as u64 || n64 > msize as u64 {
            return Err(Error::new(ErrorKind::NullArgument));
        }
        let n = n64 as usize;
        let bytes_needed = match n.checked_mul(l.size) {
            Some(v) => v,
            None => {
                proof {
                    assert((n as int) * (l.size as int) > usize::MAX as int);
                    assert(ptr64 as int + (n64 as int) * size_of(*elem) > m@.len());
                }
                return Err(Error::new(ErrorKind::NullArgument));
            },
        };
        proof {
            assert(bytes_needed as int == (n64 as int) * size_of(*elem));
        }
        if bytes_needed > msize - (ptr64 as usize) {
            proof {
                assert(ptr64 as int + (n64 as int) * size_of(*elem) > m@.len());
            }
            return Err(Error::new(ErrorKind::NullArgument));
        }
        match lift_list_elems(elem, m, tbl, ptr64 as usize, l.size, n) {
            Ok(vals) => Ok(Value::List(vals)),
            Err(e) => Err(e),
        }
    }
}

/// Lifts a variant from a discriminant cell and its case's payload cells.
fn lift_param_variant_cells(
    cs: &Vec<CaseTy>,
    cells: &Vec<u64>,
    m: &Memory,
    tbl: &mut ResourceTable,
    i: usize,
) -> (r: Result<Value, Error>)
    requires
        ty_ok(Ty::Variant(*cs)),
        i + flat_of(Ty::Variant(*cs)) <= cells@.len(),
    ensures
        (match lift_param_spec(Ty::Variant(*cs), cells@, m@, old(tbl)@, i as int) {
            Some(out) => r matches Ok(v) && v@ == out.0 && final(tbl)@ == out.1,
            None => r is Err,
        }),
        r matches Err(e) ==> param_err_kind(e.kind),
    decreases *cs, 9int, 0int,
{
    let total = cells.len();
    proof {
        crate::layout::lemma_cases_props(cs@, cs@.len() as int);
    }
    let disc64 = cells[i];
    if disc64 >= cs.len() as u64 {
        return Err(Error::new(ErrorKind::UnknownDiscriminant));
    }
    let disc = disc64 as usize;
    match &cs[disc].payload {
        Some(pty) => {
            proof {
                assert(decreases_to!(*cs => cs@));
                assert(decreases_to!(cs@ => cs@[disc as int]));
                assert(decreases_to!(cs@[disc as int] => cs@[disc as int].payload));
                assert(decreases_to!(cs@[disc as int].payload => cs@[disc as int].payload->Some_0));
                assert(decreases_to!(*cs => cs@[disc as int].payload->Some_0));
                crate::layout::lemma_variant_children_ok(cs@);
                lemma_ty_props(cs@[disc as int].payload->Some_0);
                crate::layout::lemma_case_bounds(cs@, disc as int, cs@.len() as int);
                assert(case_flat(cs@[disc as int]) == flat_of(cs@[disc as int].payload->Some_0));
            }
            match lift_param(pty, cells, m, tbl, i + 1) {
                Ok((pv, _pnext)) => Ok(Value::Variant(cs[disc].name.clone(), Some(Box::new(pv)))),
                Err(e) => Err(e),
            }
        },
        None => Ok(Value::Variant(cs[disc].name.clone(), None)),
    }
}

/// Lifts an option from a discriminant cell and the inner type's cells.
fn lift_param_opt_cells(
    t: &Ty,
    inner: &Ty,
    cells: &Vec<u64>,
    m: &Memory,
    tbl: &mut ResourceTable,
    i: usize,
) -> (r: Result<Value, Error>)
    requires
        ty_ok(*t),
        (match *t {
            Ty::Opt(b) => *b == *inner,
            _ => false,
        }),
        i + flat_of(*t) <= cells@.len(),
    ensures
        (match lift_param_spec(*t, cells@, m@, old(tbl)@, i as int) {
            Some(out) => r matches Ok(v) && v@ == out.0 && final(tbl)@ == out.1,
            None => r is Err,
        }),
        r matches Err(e) ==> param_err_kind(e.kind),
    decreases *inner, 9int, 0int,
{
    let total = cells.len();
    proof {
        lemma_ty_props(*inner);
    }
    let disc64 = cells[i];
    if disc64 == 0 {
        Ok(Value::Opt(None))
    } else if disc64 == 1 {
        match lift_param(inner, cells, m, tbl, i + 1) {
            Ok((pv, _pnext)) => Ok(Value::Opt(Some(Box::new(pv)))),
            Err(e) => Err(e),
        }
    } else {
        Err(Error::new(ErrorKind::UnknownDiscriminant))
    }
}

/// Lifts an owned handle from its representation cell.
fn lift_own_cell(rid: u32, cell: u64, tbl: &mut ResourceTable) -> (r: Result<Value, Error>)
    ensures
        (match lift_param_spec(Ty::Own(rid), seq![cell], Seq::empty(), old(tbl)@, 0) {
            Some(out) => r matches Ok(v) && v@ == out.0 && final(tbl)@ == out.1,
            None => r is Err,
        }),
        r matches Err(e) ==> param_err_kind(e.kind),
{
    let rep = #[verifier::truncate] (cell as u32);
    let tok = match tbl.get(rep) {
        Ok(tok) => tok,
        Err(e) => {
            return Err(e);
        },
    };
    if tok.ty != rid {
        return Err(Error::new(ErrorKind::ResourceTypeMismatch));
    }
    match tbl.remove(rep) {
        Ok(tok2) => Ok(Value::Own(tok2)),
        Err(e) => {
            proof {
                assert(false);
            }
            Err(e)
        },
    }
}

/// Lifts a borrowed handle from its representation cell.
fn lift_borrow_cell(rid: u32, cell: u64, tbl: &mut ResourceTable) -> (r: Result<Value, Error>)
    ensures
        (match lift_param_spec(Ty::Borrow(rid), seq![cell], Seq::empty(), old(tbl)@, 0) {
            Some(out) => r matches Ok(v) && v@ == out.0 && final(tbl)@ == out.1,
            None => r is Err,
        }),
        r matches Err(e) ==> param_err_kind(e.kind),
        final(tbl)@ == old(tbl)@,
{
    let rep = #[verifier::truncate] (cell as u32);
    let tok = match tbl.get(rep) {
        Ok(tok) => tok,
        Err(e) => {
            return Err(e);
        },
    };
    if tok.ty != rid {
        return Err(Error::new(ErrorKind::ResourceTypeMismatch));
    }
    Ok(Value::Borrow(tok))
}

} // verus!

verus! {

/// Lifts a full parameter list from the argument cells: the obvious fold
/// of [`lift_param`] over the schemas, left to right.  The returned
/// position is the first cell past the parameters — the first result
/// out-pointer.
pub fn lift_params(
    tys: &Vec<Ty>,
    cells: &Vec<u64>,
    m: &Memory,
    tbl: &mut ResourceTable,
    start: usize,
) -> (r: Result<(Vec<Value>, usize), Error>)
    requires
        elems_ok(tys@),
        start + elems_flat(tys@, tys@.len() as int) <= cells@.len(),
    ensures
        (match lift_param_tuple_spec(tys@, cells@, m@, old(tbl)@, start as int, tys@.len() as int) {
            Some(out) => r matches Ok(p) && seq_view(p.0@) == out.0 && final(tbl)@ == out.1
                && p.1 as int == start + elems_flat(tys@, tys@.len() as int),
            None => r is Err,
        }),
        r matches Err(e) ==> param_err_kind(e.kind),
{
    let total = cells.len();
    let vals = match lift_param_tuple_elems(tys, cells, m, tbl, start) {
        Ok(vals) => vals,
        Err(e) => {
            return Err(e);
        },
    };
    let mut flat_total: usize = 0;
    let mut k: usize = 0;
    while k < tys.len()
        invariant
            k <= tys@.len(),
            elems_ok(tys@),
            start + elems_flat(tys@, tys@.len() as int) <= cells@.len(),
            cells@.len() <= usize::MAX,
            flat_total as int == elems_flat(tys@, k as int),
        decreases tys@.len() - k,
    {
        proof {
            assert(ty_ok(tys@[k as int]));
            lemma_ty_props(tys@[k as int]);
            crate::layout::lemma_elems_flat_mono(tys@, k as int + 1, tys@.len() as int);
        }
        let fl = match crate::layout::layout_of(&tys[k]) {
            Ok(l) => l,
            Err(_) => {
                proof {
                    assert(false);
                }
                return Err(Error::new(ErrorKind::UnsupportedSchema));
            },
        };
        flat_total = flat_total + fl.flat;
        k = k + 1;
    }
    Ok((vals, start + flat_total))
}

} // verus!
