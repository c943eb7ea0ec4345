//! Lowering: writing typed values into caller-owned memory.
//!
//! [`lower`] writes a value at `dst` in the canonical layout, allocating
//! auxiliary blocks for string and list payloads at the end of the memory.
//! Its postcondition carries the round-trip law: any memory that preserves
//! the written region and the fresh allocations lifts back to exactly the
//! value that was lowered — and it touches no byte outside that region.

use vstd::prelude::*;
use vstd::bytes::{
    lemma_auto_spec_u16_to_from_le_bytes, lemma_auto_spec_u32_to_from_le_bytes,
    lemma_auto_spec_u64_to_from_le_bytes, spec_u64_from_le_bytes,
};
use vstd::utf8::encode_utf8;

use crate::error::{Error, ErrorKind};
use crate::layout::{
    align_up, align_up_usize, case_size, cases_align, cases_size, disc_size, elem_offset,
    elems_align, elems_end, field_offset, fields_align, fields_end, flags_size, is_align,
    lemma_case_bounds, lemma_elem_in_tuple, lemma_field_in_record, lemma_payload_in_tagged,
    lemma_res_opt_props, lemma_ty_props, opt_align, opt_size, size_of, ty_ok,
};
use crate::lift::{
    flags_names, lift_list_spec, lift_opt_payload_spec, lift_record_spec, lift_spec,
    lift_tuple_spec, read_disc,
};
use crate::mem::Memory;
use crate::resource::ResourceTable;
use crate::schema::{CaseTy, FieldTy, Ty};
use crate::value::{
    find_case, find_name, has_type, names_view, payload_view, seq_view, Token, ValV, Value,
};

verus! {

/// The lowering touched nothing outside the destination slot: every byte
/// below the old end of memory and outside `[dst, dst + size)` is intact,
/// and memory only grew.
pub open spec fn frame_ok(old_m: Seq<u8>, new_m: Seq<u8>, dst: int, size: int) -> bool {
    &&& new_m.len() >= old_m.len()
    &&& forall|i: int| 0 <= i < old_m.len() && !(dst <= i < dst + size) ==> new_m[i] == old_m[i]
}

/// The resource table only gained entries: every old slot is unchanged.
pub open spec fn table_grew(old_t: Seq<Option<Token>>, new_t: Seq<Option<Token>>) -> bool {
    &&& new_t.len() >= old_t.len()
    &&& forall|i: int| 0 <= i < old_t.len() ==> new_t[i] == old_t[i]
}

/// The round-trip statement of lowering: in any memory that agrees with
/// the lowered one on the destination slot and on everything lowering
/// appended, and any table that agrees on the entries lowering pushed,
/// lifting at `dst` succeeds and yields exactly the lowered value; it
/// consumes only the pushed entries, leaving every other slot alone.
pub open spec fn reads_back(
    t: Ty,
    v: ValV,
    m0: Seq<u8>,
    m1: Seq<u8>,
    tb0: Seq<Option<Token>>,
    tb1: Seq<Option<Token>>,
    dst: int,
) -> bool {
    forall|m2: Seq<u8>, tb2: Seq<Option<Token>>|
        (m2.len() >= m1.len() && (forall|i: int| dst <= i < dst + size_of(t) ==> m2[i] == m1[i])
            && (forall|i: int| m0.len() <= i < m1.len() ==> m2[i] == m1[i]) && tb2.len()
            >= tb1.len() && (forall|i: int| tb0.len() <= i < tb1.len() ==> tb2[i] == tb1[i]))
            ==> (#[trigger] lift_spec(t, m2, tb2, dst) matches Some(out) && out.0 == v
            && out.1.len() == tb2.len() && (forall|i: int|
            0 <= i < tb2.len() && !(tb0.len() <= i < tb1.len()) ==> out.1[i] == tb2[i]))
}

/// Round trip of an `i8` through its stored byte.
proof fn lemma_i8_cast(x: i8)
    ensures
        ((x as u8) as i8) == x,
{
    assert(((x as u8) as i8) == x) by (bit_vector);
}

/// Round trip of an `i16` through its stored half-word.
proof fn lemma_i16_cast(x: i16)
    ensures
        ((x as u16) as i16) == x,
{
    assert(((x as u16) as i16) == x) by (bit_vector);
}

/// Round trip of an `i32` through its stored word.
proof fn lemma_i32_cast(x: i32)
    ensures
        ((x as u32) as i32) == x,
{
    assert(((x as u32) as i32) == x) by (bit_vector);
}

/// Round trip of an `i64` through its stored double word.
proof fn lemma_i64_cast(x: i64)
    ensures
        ((x as u64) as i64) == x,
{
    assert(((x as u64) as i64) == x) by (bit_vector);
}

/// The error kinds lowering can surface.
pub open spec fn lower_err_kind(k: ErrorKind) -> bool {
    ||| k == ErrorKind::TypeMismatch
    ||| k == ErrorKind::UnknownDiscriminant
    ||| k == ErrorKind::AllocFailed
    ||| k == ErrorKind::EngineError
}

/// An upper bound on the bytes lowering `v` under `t` appends to memory:
/// each string's UTF-8 payload, each non-empty list's element block with
/// the worst-case alignment padding of seven bytes, and whatever the
/// nested values allocate in turn.  Zero for shapes that allocate nothing.
pub open spec fn alloc_bound(t: Ty, v: ValV) -> int
    decreases v, 1int,
{
    match (v, t) {
        (ValV::Str(s), Ty::Str) => encode_utf8(s).len() as int,
        (ValV::List(vals), Ty::List(e)) => 7 + vals.len() * size_of(*e) + alloc_sum_list(
            *e,
            vals,
            vals.len() as int,
        ),
        (ValV::Record(vals), Ty::Record(fs)) => alloc_sum_fields(fs@, vals, vals.len() as int),
        (ValV::Tuple(vals), Ty::Tuple(ts)) => alloc_sum_elems(ts@, vals, vals.len() as int),
        (ValV::Variant(name, pv), Ty::Variant(cs)) => {
            let i = find_case(cs@, name, 0);
            if 0 <= i < cs@.len() && pv.len() == 1 {
                match cs@[i].payload {
                    Some(pt) => alloc_bound(pt, pv[0]),
                    None => 0,
                }
            } else {
                0
            }
        },
        (ValV::Opt(pv), Ty::Opt(inner)) => if pv.len() == 1 {
            alloc_bound(*inner, pv[0])
        } else {
            0
        },
        (ValV::Res(is_err, pv), Ty::Res(ok, err)) => {
            let pt = if is_err {
                err
            } else {
                ok
            };
            if pv.len() == 1 {
                match pt {
                    Some(ty) => alloc_bound(*ty, pv[0]),
                    None => 0,
                }
            } else {
                0
            }
        },
        _ => 0,
    }
}

/// Allocation bound summed over the first `k` elements of a list.
pub open spec fn alloc_sum_list(e: Ty, vs: Seq<ValV>, k: int) -> int
    decreases vs, 0int, k,
{
    if k <= 0 || k > vs.len() {
        0
    } else {
        alloc_sum_list(e, vs, k - 1) + alloc_bound(e, vs[k - 1])
    }
}

/// Allocation bound summed over the first `k` fields of a record.
pub open spec fn alloc_sum_fields(fs: Seq<FieldTy>, vs: Seq<ValV>, k: int) -> int
    decreases vs, 0int, k,
{
    if k <= 0 || k > vs.len() || k > fs.len() {
        0
    } else {
        alloc_sum_fields(fs, vs, k - 1) + alloc_bound(fs[k - 1].ty, vs[k - 1])
    }
}

/// Allocation bound summed over the first `k` positions of a sequence of
/// values with their own types (tuple elements, result destinations).
pub open spec fn alloc_sum_elems(ts: Seq<Ty>, vs: Seq<ValV>, k: int) -> int
    decreases vs, 0int, k,
{
    if k <= 0 || k > vs.len() || k > ts.len() {
        0
    } else {
        alloc_sum_elems(ts, vs, k - 1) + alloc_bound(ts[k - 1], vs[k - 1])
    }
}

/// Number of resource handles inside `v`: the table entries lowering it
/// pushes.
pub open spec fn handle_count(v: ValV) -> int
    decreases v, 1int,
{
    match v {
        ValV::Own(_) | ValV::Borrow(_) => 1,
        ValV::List(vals) => handle_sum(vals, vals.len() as int),
        ValV::Record(vals) => handle_sum(vals, vals.len() as int),
        ValV::Tuple(vals) => handle_sum(vals, vals.len() as int),
        ValV::Variant(_, pv) => handle_sum(pv, pv.len() as int),
        ValV::Opt(pv) => handle_sum(pv, pv.len() as int),
        ValV::Res(_, pv) => handle_sum(pv, pv.len() as int),
        _ => 0,
    }
}

/// Handle count summed over the first `k` values.
pub open spec fn handle_sum(vs: Seq<ValV>, k: int) -> int
    decreases vs, 0int, k,
{
    if k <= 0 || k > vs.len() {
        0
    } else {
        handle_sum(vs, k - 1) + handle_count(vs[k - 1])
    }
}

/// The allocation bound is never negative.
pub proof fn lemma_alloc_bound_nonneg(t: Ty, v: ValV)
    ensures
        alloc_bound(t, v) >= 0,
    decreases v, 1int,
{
    match (v, t) {
        (ValV::List(vals), Ty::List(e)) => {
            crate::layout::lemma_ty_props(*e);
            vstd::arithmetic::mul::lemma_mul_nonnegative(vals.len() as int, size_of(*e));
            lemma_alloc_sum_list_nonneg(*e, vals, vals.len() as int);
        },
        (ValV::Record(vals), Ty::Record(fs)) => {
            lemma_alloc_sum_fields_nonneg(fs@, vals, vals.len() as int);
        },
        (ValV::Tuple(vals), Ty::Tuple(ts)) => {
            lemma_alloc_sum_elems_nonneg(ts@, vals, vals.len() as int);
        },
        (ValV::Variant(name, pv), Ty::Variant(cs)) => {
            let i = find_case(cs@, name, 0);
            if 0 <= i < cs@.len() && pv.len() == 1 {
                match cs@[i].payload {
                    Some(pt) => {
                        lemma_alloc_bound_nonneg(pt, pv[0]);
                    },
                    None => {},
                }
            }
        },
        (ValV::Opt(pv), Ty::Opt(inner)) => {
            if pv.len() == 1 {
                lemma_alloc_bound_nonneg(*inner, pv[0]);
            }
        },
        (ValV::Res(is_err, pv), Ty::Res(ok, err)) => {
            let pt = if is_err {
                err
            } else {
                ok
            };
            if pv.len() == 1 {
                match pt {
                    Some(ty) => {
                        lemma_alloc_bound_nonneg(*ty, pv[0]);
                    },
                    None => {},
                }
            }
        },
        _ => {},
    }
}

/// Prefix sums of list-element allocation bounds are non-negative.
pub proof fn lemma_alloc_sum_list_nonneg(e: Ty, vs: Seq<ValV>, k: int)
    ensures
        alloc_sum_list(e, vs, k) >= 0,
    decreases vs, 0int, k,
{
    if 0 < k <= vs.len() {
        lemma_alloc_sum_list_nonneg(e, vs, k - 1);
        lemma_alloc_bound_nonneg(e, vs[k - 1]);
    }
}

/// Prefix sums of record-field allocation bounds are non-negative.
pub proof fn lemma_alloc_sum_fields_nonneg(fs: Seq<FieldTy>, vs: Seq<ValV>, k: int)
    ensures
        alloc_sum_fields(fs, vs, k) >= 0,
    decreases vs, 0int, k,
{
    if 0 < k <= vs.len() && k <= fs.len() {
        lemma_alloc_sum_fields_nonneg(fs, vs, k - 1);
        lemma_alloc_bound_nonneg(fs[k - 1].ty, vs[k - 1]);
    }
}

/// Prefix sums of positional allocation bounds are non-negative.
pub proof fn lemma_alloc_sum_elems_nonneg(ts: Seq<Ty>, vs: Seq<ValV>, k: int)
    ensures
        alloc_sum_elems(ts, vs, k) >= 0,
    decreases vs, 0int, k,
{
    if 0 < k <= vs.len() && k <= ts.len() {
        lemma_alloc_sum_elems_nonneg(ts, vs, k - 1);
        lemma_alloc_bound_nonneg(ts[k - 1], vs[k - 1]);
    }
}

/// The handle count is never negative.
pub proof fn lemma_handle_count_nonneg(v: ValV)
    ensures
        handle_count(v) >= 0,
    decreases v, 1int,
{
    match v {
        ValV::List(vals) => lemma_handle_sum_nonneg(vals, vals.len() as int),
        ValV::Record(vals) => lemma_handle_sum_nonneg(vals, vals.len() as int),
        ValV::Tuple(vals) => lemma_handle_sum_nonneg(vals, vals.len() as int),
        ValV::Variant(_, pv) => lemma_handle_sum_nonneg(pv, pv.len() as int),
        ValV::Opt(pv) => lemma_handle_sum_nonneg(pv, pv.len() as int),
        ValV::Res(_, pv) => lemma_handle_sum_nonneg(pv, pv.len() as int),
        _ => {},
    }
}

/// Prefix sums of handle counts are non-negative.
pub proof fn lemma_handle_sum_nonneg(vs: Seq<ValV>, k: int)
    ensures
        handle_sum(vs, k) >= 0,
    decreases vs, 0int, k,
{
    if 0 < k <= vs.len() {
        lemma_handle_sum_nonneg(vs, k - 1);
        lemma_handle_count_nonneg(vs[k - 1]);
    }
}

/// A longer prefix never has a smaller list allocation sum.
pub proof fn lemma_alloc_sum_list_mono(e: Ty, vs: Seq<ValV>, j: int, k: int)
    requires
        0 <= j <= k <= vs.len(),
    ensures
        alloc_sum_list(e, vs, j) <= alloc_sum_list(e, vs, k),
    decreases k - j,
{
    if j < k {
        lemma_alloc_sum_list_mono(e, vs, j, k - 1);
        lemma_alloc_bound_nonneg(e, vs[k - 1]);
    }
}

/// A longer prefix never has a smaller record allocation sum.
pub proof fn lemma_alloc_sum_fields_mono(fs: Seq<FieldTy>, vs: Seq<ValV>, j: int, k: int)
    requires
        0 <= j <= k <= vs.len(),
        k <= fs.len(),
    ensures
        alloc_sum_fields(fs, vs, j) <= alloc_sum_fields(fs, vs, k),
    decreases k - j,
{
    if j < k {
        lemma_alloc_sum_fields_mono(fs, vs, j, k - 1);
        lemma_alloc_bound_nonneg(fs[k - 1].ty, vs[k - 1]);
    }
}

/// A longer prefix never has a smaller positional allocation sum.
pub proof fn lemma_alloc_sum_elems_mono(ts: Seq<Ty>, vs: Seq<ValV>, j: int, k: int)
    requires
        0 <= j <= k <= vs.len(),
        k <= ts.len(),
    ensures
        alloc_sum_elems(ts, vs, j) <= alloc_sum_elems(ts, vs, k),
    decreases k - j,
{
    if j < k {
        lemma_alloc_sum_elems_mono(ts, vs, j, k - 1);
        lemma_alloc_bound_nonneg(ts[k - 1], vs[k - 1]);
    }
}

/// A longer prefix never has a smaller handle sum.
pub proof fn lemma_handle_sum_mono(vs: Seq<ValV>, j: int, k: int)
    requires
        0 <= j <= k <= vs.len(),
    ensures
        handle_sum(vs, j) <= handle_sum(vs, k),
    decreases k - j,
{
    if j < k {
        lemma_handle_sum_mono(vs, j, k - 1);
        lemma_handle_count_nonneg(vs[k - 1]);
    }
}

/// The canonical `(pointer, length)` pair stored at `a`: the length cell
/// holds `len`; an empty payload stores a null pointer; a non-empty one
/// stores a pointer aligned to `align` at or past `old_end` — a fresh
/// block, disjoint from everything the caller already owned.
pub open spec fn pair_canon(m: Seq<u8>, a: int, len: int, align: int, old_end: int) -> bool {
    let ptr = spec_u64_from_le_bytes(m.subrange(a, a + 8)) as int;
    let n = spec_u64_from_le_bytes(m.subrange(a + 8, a + 16)) as int;
    &&& n == len
    &&& (len == 0 ==> ptr == 0)
    &&& (len != 0 ==> ptr % align == 0 && old_end <= ptr)
}

/// The packed flags scalar stored at `a` for an `n`-name schema is fully
/// canonical: every bit at or above index `n` is clear.  The low bits are
/// already pinned by the round-trip law, so together the stored scalar is
/// exactly the or of `1 << index` over the set names.
pub open spec fn flags_bits_canon(m: Seq<u8>, a: int, n: int) -> bool {
    match read_disc(m, a, flags_size(n)) {
        Some(b) => forall|p: int|
            n <= p < 32 ==> (#[trigger] ((b as u32) >> (p as u32)) & 1u32) == 0u32,
        None => false,
    }
}

/// The byte-exact guarantees lowering gives beyond the round-trip law:
/// a string stores its UTF-8 length and either a null pointer (empty) or a
/// fresh in-bounds pointer; a list stores its element count and either a
/// null pointer or a fresh pointer aligned to the element type; a flags
/// value stores a scalar whose bits above the name count are all clear.
pub open spec fn lower_canon(t: Ty, v: ValV, old_m: Seq<u8>, new_m: Seq<u8>, dst: int) -> bool {
    &&& (t is Str ==> v is Str && pair_canon(
        new_m,
        dst,
        encode_utf8(v->Str_0).len() as int,
        1,
        old_m.len() as int,
    ))
    &&& (t is List ==> v is List && pair_canon(
        new_m,
        dst,
        v->List_0.len() as int,
        crate::layout::align_of(*t->List_0),
        old_m.len() as int,
    ))
    &&& (t is Flags ==> flags_bits_canon(new_m, dst, t->Flags_0@.len() as int))
}

/// A round-trip statement survives later activity that leaves the value's
/// window and everything its lowering appended untouched, and only grows
/// the table past the entries its lowering pushed.
pub proof fn lemma_reads_back_stable(
    t: Ty,
    v: ValV,
    m0: Seq<u8>,
    ma: Seq<u8>,
    mb: Seq<u8>,
    tb0: Seq<Option<Token>>,
    tba: Seq<Option<Token>>,
    tbb: Seq<Option<Token>>,
    dst: int,
)
    requires
        reads_back(t, v, m0, ma, tb0, tba, dst),
        m0.len() <= ma.len() <= mb.len(),
        forall|i: int| dst <= i < dst + size_of(t) ==> mb[i] == ma[i],
        forall|i: int| m0.len() <= i < ma.len() ==> mb[i] == ma[i],
        tb0.len() <= tba.len() <= tbb.len(),
        forall|i: int| tb0.len() <= i < tba.len() ==> tbb[i] == tba[i],
    ensures
        reads_back(t, v, m0, mb, tb0, tbb, dst),
{
    assert forall|m2: Seq<u8>, tb2: Seq<Option<Token>>|
        (m2.len() >= mb.len() && (forall|i: int| dst <= i < dst + size_of(t) ==> m2[i] == mb[i])
            && (forall|i: int| m0.len() <= i < mb.len() ==> m2[i] == mb[i]) && tb2.len()
            >= tbb.len() && (forall|i: int| tb0.len() <= i < tbb.len() ==> tb2[i] == tbb[i]))
        implies (#[trigger] lift_spec(t, m2, tb2, dst) matches Some(out) && out.0 == v
        && out.1.len() == tb2.len() && (forall|i: int|
        0 <= i < tb2.len() && !(tb0.len() <= i < tbb.len()) ==> out.1[i] == tb2[i])) by {
        assert(forall|i: int| dst <= i < dst + size_of(t) ==> m2[i] == ma[i]);
        assert(forall|i: int| m0.len() <= i < ma.len() ==> m2[i] == ma[i]);
        assert(forall|i: int| tb0.len() <= i < tba.len() ==> tb2[i] == tba[i]);
        assert(lift_spec(t, m2, tb2, dst) matches Some(out) && out.0 == v && out.1.len()
            == tb2.len() && (forall|i: int|
            0 <= i < tb2.len() && !(tb0.len() <= i < tba.len()) ==> out.1[i] == tb2[i]));
    }
}

/// A round-trip statement against the state a nested lowering started from
/// also holds against any earlier state: preserving more of memory and of
/// the table only strengthens the reader's hypotheses.
pub proof fn lemma_reads_back_widen(
    t: Ty,
    v: ValV,
    m0: Seq<u8>,
    ma: Seq<u8>,
    mb: Seq<u8>,
    tb0: Seq<Option<Token>>,
    tba: Seq<Option<Token>>,
    tbb: Seq<Option<Token>>,
    dst: int,
)
    requires
        reads_back(t, v, ma, mb, tba, tbb, dst),
        m0.len() <= ma.len() <= mb.len(),
        tb0.len() <= tba.len() <= tbb.len(),
    ensures
        reads_back(t, v, m0, mb, tb0, tbb, dst),
{
    assert forall|m2: Seq<u8>, tb2: Seq<Option<Token>>|
        (m2.len() >= mb.len() && (forall|i: int| dst <= i < dst + size_of(t) ==> m2[i] == mb[i])
            && (forall|i: int| m0.len() <= i < mb.len() ==> m2[i] == mb[i]) && tb2.len()
            >= tbb.len() && (forall|i: int| tb0.len() <= i < tbb.len() ==> tb2[i] == tbb[i]))
        implies (#[trigger] lift_spec(t, m2, tb2, dst) matches Some(out) && out.0 == v
        && out.1.len() == tb2.len() && (forall|i: int|
        0 <= i < tb2.len() && !(tb0.len() <= i < tbb.len()) ==> out.1[i] == tb2[i])) by {
        assert(forall|i: int| ma.len() <= i < mb.len() ==> m2[i] == mb[i]);
        assert(forall|i: int| tba.len() <= i < tbb.len() ==> tb2[i] == tbb[i]);
        assert(lift_spec(t, m2, tb2, dst) matches Some(out) && out.0 == v && out.1.len()
            == tb2.len() && (forall|i: int|
            0 <= i < tb2.len() && !(tba.len() <= i < tbb.len()) ==> out.1[i] == tb2[i]));
    }
}

/// Writes a discriminant of width 1, 2 or 4 bytes at `a`.
fn write_disc_at(m: &mut Memory, a: usize, w: usize, val: u64)
    requires
        w == 1 || w == 2 || w == 4,
        a + w <= old(m)@.len(),
        w == 1 ==> val <= 255,
        w == 2 ==> val <= 65535,
        w == 4 ==> val <= u32::MAX,
    ensures
        final(m)@.len() == old(m)@.len(),
        forall|i: int|
            0 <= i < old(m)@.len() && !(a <= i < a + w) ==> final(m)@[i] == old(m)@[i],
        read_disc(final(m)@, a as int, w as int) == Some(val as int),
{
    if w == 1 {
        m.write_u8(a, val as u8);
        proof {
            assert(m@[a as int] == val as u8);
            assert(val < 256 ==> (val as u8) as int == val as int);
            assert(read_disc(m@, a as int, w as int) == Some(val as int));
        }
    } else if w == 2 {
        m.write_u16(a, val as u16);
        proof {
            lemma_auto_spec_u16_to_from_le_bytes();
            assert(vstd::bytes::spec_u16_to_le_bytes(val as u16).len() == 2);
            assert(vstd::bytes::spec_u16_from_le_bytes(
                vstd::bytes::spec_u16_to_le_bytes(val as u16),
            ) == val as u16);
            assert(m@.subrange(a as int, a as int + 2) == vstd::bytes::spec_u16_to_le_bytes(
                val as u16,
            ));
            assert(read_disc(m@, a as int, w as int) == Some(val as int));
        }
    } else {
        m.write_u32(a, val as u32);
        proof {
            lemma_auto_spec_u32_to_from_le_bytes();
            assert(vstd::bytes::spec_u32_to_le_bytes(val as u32).len() == 4);
            assert(vstd::bytes::spec_u32_from_le_bytes(
                vstd::bytes::spec_u32_to_le_bytes(val as u32),
            ) == val as u32);
            assert(m@.subrange(a as int, a as int + 4) == vstd::bytes::spec_u32_to_le_bytes(
                val as u32,
            ));
            assert(read_disc(m@, a as int, w as int) == Some(val as int));
        }
    }
}

} // verus!

verus! {

/// The schema formers whose values are a single scalar write.
pub open spec fn is_prim(t: Ty) -> bool {
    match t {
        Ty::Bool | Ty::S8 | Ty::U8 | Ty::S16 | Ty::U16 | Ty::S32 | Ty::U32 | Ty::S64 | Ty::U64
            | Ty::F32 | Ty::F64 | Ty::Char => true,
        _ => false,
    }
}

/// Lowers a primitive value: one native-endian scalar write.
fn lower_prim(t: &Ty, v: &Value, m: &mut Memory, tbl: &mut ResourceTable, dst: usize) -> (r:
    Result<usize, Error>)
    requires
        is_prim(*t),
        dst + size_of(*t) <= old(m)@.len(),
    ensures
        r matches Ok(next) ==> next as int == dst + size_of(*t),
        r is Ok ==> frame_ok(old(m)@, final(m)@, dst as int, size_of(*t)),
        r is Ok ==> reads_back(*t, v@, old(m)@, final(m)@, old(tbl)@, final(tbl)@, dst as int),
        r is Ok ==> has_type(v@, *t),
        r matches Err(e) ==> e.kind == ErrorKind::TypeMismatch && !has_type(v@, *t) && final(m)@
            == old(m)@,
        r is Ok ==> final(m)@.len() == old(m)@.len(),
        final(tbl)@ == old(tbl)@,
{
    let total = m.size();
    let ghost dsti = dst as int;
    match (t, v) {
        (Ty::Bool, Value::Bool(b)) => {
            m.write_u8(dst, if *b {
                1
            } else {
                0
            });
            proof {
                lemma_prim_reads_back(*t, v@, old(m)@, m@, old(tbl)@, dsti);
            }
            Ok(dst + 1)
        },
        (Ty::S8, Value::S8(x)) => {
            m.write_u8(dst, #[verifier::truncate] (*x as u8));
            proof {
                lemma_i8_cast(*x);
                lemma_prim_reads_back(*t, v@, old(m)@, m@, old(tbl)@, dsti);
            }
            Ok(dst + 1)
        },
        (Ty::U8, Value::U8(x)) => {
            m.write_u8(dst, *x);
            proof {
                lemma_prim_reads_back(*t, v@, old(m)@, m@, old(tbl)@, dsti);
            }
            Ok(dst + 1)
        },
        (Ty::S16, Value::S16(x)) => {
            m.write_u16(dst, #[verifier::truncate] (*x as u16));
            proof {
                lemma_auto_spec_u16_to_from_le_bytes();
                assert(vstd::bytes::spec_u16_to_le_bytes(#[verifier::truncate] (*x as u16)).len()
                    == 2);
                lemma_i16_cast(*x);
                lemma_prim_reads_back(*t, v@, old(m)@, m@, old(tbl)@, dsti);
            }
            Ok(dst + 2)
        },
        (Ty::U16, Value::U16(x)) => {
            m.write_u16(dst, *x);
            proof {
                lemma_auto_spec_u16_to_from_le_bytes();
                assert(vstd::bytes::spec_u16_to_le_bytes(*x).len() == 2);
                lemma_prim_reads_back(*t, v@, old(m)@, m@, old(tbl)@, dsti);
            }
            Ok(dst + 2)
        },
        (Ty::S32, Value::S32(x)) => {
            m.write_u32(dst, #[verifier::truncate] (*x as u32));
            proof {
                lemma_auto_spec_u32_to_from_le_bytes();
                assert(vstd::bytes::spec_u32_to_le_bytes(#[verifier::truncate] (*x as u32)).len()
                    == 4);
                lemma_i32_cast(*x);
                lemma_prim_reads_back(*t, v@, old(m)@, m@, old(tbl)@, dsti);
            }
            Ok(dst + 4)
        },
        (Ty::U32, Value::U32(x)) => {
            m.write_u32(dst, *x);
            proof {
                lemma_auto_spec_u32_to_from_le_bytes();
                assert(vstd::bytes::spec_u32_to_le_bytes(*x).len() == 4);
                lemma_prim_reads_back(*t, v@, old(m)@, m@, old(tbl)@, dsti);
            }
            Ok(dst + 4)
        },
        (Ty::S64, Value::S64(x)) => {
            m.write_u64(dst, #[verifier::truncate] (*x as u64));
            proof {
                lemma_auto_spec_u64_to_from_le_bytes();
                assert(vstd::bytes::spec_u64_to_le_bytes(#[verifier::truncate] (*x as u64)).len()
                    == 8);
                lemma_i64_cast(*x);
                lemma_prim_reads_back(*t, v@, old(m)@, m@, old(tbl)@, dsti);
            }
            Ok(dst + 8)
        },
        (Ty::U64, Value::U64(x)) => {
            m.write_u64(dst, *x);
            proof {
                lemma_auto_spec_u64_to_from_le_bytes();
                assert(vstd::bytes::spec_u64_to_le_bytes(*x).len() == 8);
                lemma_prim_reads_back(*t, v@, old(m)@, m@, old(tbl)@, dsti);
            }
            Ok(dst + 8)
        },
        (Ty::F32, Value::F32Bits(x)) => {
            m.write_u32(dst, *x);
            proof {
                lemma_auto_spec_u32_to_from_le_bytes();
                assert(vstd::bytes::spec_u32_to_le_bytes(*x).len() == 4);
                lemma_prim_reads_back(*t, v@, old(m)@, m@, old(tbl)@, dsti);
            }
            Ok(dst + 4)
        },
        (Ty::F64, Value::F64Bits(x)) => {
            m.write_u64(dst, *x);
            proof {
                lemma_auto_spec_u64_to_from_le_bytes();
                assert(vstd::bytes::spec_u64_to_le_bytes(*x).len() == 8);
                lemma_prim_reads_back(*t, v@, old(m)@, m@, old(tbl)@, dsti);
            }
            Ok(dst + 8)
        },
        (Ty::Char, Value::Char(c)) => {
            m.write_u32(dst, *c as u32);
            proof {
                lemma_auto_spec_u32_to_from_le_bytes();
                assert(vstd::bytes::spec_u32_to_le_bytes(*c as u32).len() == 4);
                vstd::utf8::char_is_scalar(*c);
                vstd::utf8::char_u32_cast(*c, *c as u32);
                lemma_prim_reads_back(*t, v@, old(m)@, m@, old(tbl)@, dsti);
            }
            Ok(dst + 4)
        },
        _ => Err(Error::new(ErrorKind::TypeMismatch)),
    }
}

/// A well-typed primitive value allocates nothing and holds no handle.
proof fn lemma_prim_budget(t: Ty, v: ValV)
    requires
        is_prim(t),
        has_type(v, t),
    ensures
        alloc_bound(t, v) == 0,
        handle_count(v) == 0,
{
}

/// What a primitive write means to the reader: when the stored scalar is
/// the value's encoding, any agreeing memory lifts it back.
proof fn lemma_prim_reads_back(
    t: Ty,
    v: ValV,
    m0: Seq<u8>,
    m1: Seq<u8>,
    tb: Seq<Option<Token>>,
    dst: int,
)
    requires
        is_prim(t),
        m1.len() == m0.len(),
        0 <= dst,
        dst + size_of(t) <= m1.len(),
        lift_spec(t, m1, tb, dst) == Some((v, tb)),
    ensures
        reads_back(t, v, m0, m1, tb, tb, dst),
{
    assert forall|m2: Seq<u8>, tb2: Seq<Option<Token>>|
        (m2.len() >= m1.len() && (forall|i: int| dst <= i < dst + size_of(t) ==> m2[i] == m1[i])
            && (forall|i: int| m0.len() <= i < m1.len() ==> m2[i] == m1[i]) && tb2.len()
            >= tb.len() && (forall|i: int| tb.len() <= i < tb.len() ==> tb2[i] == tb[i])) implies (
    #[trigger] lift_spec(t, m2, tb2, dst) matches Some(out) && out.0 == v && out.1.len()
        == tb2.len() && (forall|i: int|
        0 <= i < tb2.len() && !(tb.len() <= i < tb.len()) ==> out.1[i] == tb2[i])) by {
        assert(m2.subrange(dst, dst + size_of(t)) =~= m1.subrange(dst, dst + size_of(t)));
        lemma_prim_lift_window(t, m1, m2, tb, tb2, dst);
    }
}

/// A primitive lift depends only on its own bytes and no table entry.
proof fn lemma_prim_lift_window(
    t: Ty,
    m1: Seq<u8>,
    m2: Seq<u8>,
    tb1: Seq<Option<Token>>,
    tb2: Seq<Option<Token>>,
    dst: int,
)
    requires
        is_prim(t),
        0 <= dst,
        dst + size_of(t) <= m1.len(),
        m1.len() <= m2.len(),
        m2.subrange(dst, dst + size_of(t)) == m1.subrange(dst, dst + size_of(t)),
        lift_spec(t, m1, tb1, dst) is Some,
    ensures
        (match (lift_spec(t, m1, tb1, dst), lift_spec(t, m2, tb2, dst)) {
            (Some(o1), Some(o2)) => o1.0 == o2.0 && o2.1 == tb2,
            _ => false,
        }),
{
    let s = size_of(t);
    assert forall|k: int| dst <= k < dst + s implies m2[k] == m1[k] by {
        assert(m2.subrange(dst, dst + s)[k - dst] == m1.subrange(dst, dst + s)[k - dst]);
    }
    match t {
        Ty::Bool | Ty::S8 | Ty::U8 => {
            assert(m2[dst] == m1[dst]);
        },
        Ty::S16 | Ty::U16 => {
            assert(m2.subrange(dst, dst + 2) =~= m1.subrange(dst, dst + 2));
        },
        Ty::S32 | Ty::U32 | Ty::F32 | Ty::Char => {
            assert(m2.subrange(dst, dst + 4) =~= m1.subrange(dst, dst + 4));
        },
        Ty::S64 | Ty::U64 | Ty::F64 => {
            assert(m2.subrange(dst, dst + 8) =~= m1.subrange(dst, dst + 8));
        },
        _ => {},
    }
}

} // verus!

verus! {

/// A name's first index, walked from `k`, is past `k` and names that slot.
proof fn lemma_find_name_found(ns: Seq<String>, name: Seq<char>, k: int)
    requires
        0 <= k,
        find_name(ns, name, k) >= 0,
    ensures
        k <= find_name(ns, name, k) < ns.len(),
        ns[find_name(ns, name, k)]@ == name,
    decreases ns.len() - k,
{
    if k < ns.len() && ns[k]@ != name {
        lemma_find_name_found(ns, name, k + 1);
    }
}

/// First index of a name in the schema's name list, if any.
fn find_name_exec(ns: &Vec<String>, name: &String) -> (r: Option<usize>)
    ensures
        r matches Some(i) ==> i as int == find_name(ns@, name@, 0) && i < ns@.len(),
        r is None ==> find_name(ns@, name@, 0) == -1,
{
    let mut k: usize = 0;
    while k < ns.len()
        invariant
            k <= ns@.len(),
            find_name(ns@, name@, 0) == find_name(ns@, name@, k as int),
        decreases ns@.len() - k,
    {
        if ns[k].eq(name) {
            return Some(k);
        }
        k = k + 1;
    }
    None
}

/// Lowers an owned handle: pushes the token, writes the fresh
/// representation.
fn lower_own_at(rid: u32, tok: Token, m: &mut Memory, tbl: &mut ResourceTable, dst: usize) -> (r:
    Result<(), Error>)
    requires
        dst + 4 <= old(m)@.len(),
        tok.ty == rid,
    ensures
        r is Ok ==> frame_ok(old(m)@, final(m)@, dst as int, 4) && table_grew(
            old(tbl)@,
            final(tbl)@,
        ) && reads_back(
            Ty::Own(rid),
            ValV::Own(tok),
            old(m)@,
            final(m)@,
            old(tbl)@,
            final(tbl)@,
            dst as int,
        ),
        r is Ok ==> final(m)@.len() == old(m)@.len() && final(tbl)@.len() == old(tbl)@.len() + 1,
        r is Ok <==> old(tbl)@.len() <= u32::MAX,
        r matches Err(e) ==> e.kind == ErrorKind::EngineError && final(m)@ == old(m)@
            && final(tbl)@ == old(tbl)@,
{
    let total = m.size();
    let rep = match tbl.push(tok) {
        Ok(rep) => rep,
        Err(e) => {
            return Err(e);
        },
    };
    m.write_u32(dst, rep);
    proof {
        lemma_auto_spec_u32_to_from_le_bytes();
        assert(vstd::bytes::spec_u32_to_le_bytes(rep).len() == 4);
        let m0 = old(m)@;
        let m1 = m@;
        let tb0 = old(tbl)@;
        let tb1 = tbl@;
        let dsti = dst as int;
        assert forall|m2: Seq<u8>, tb2: Seq<Option<Token>>|
            (m2.len() >= m1.len() && (forall|i: int| dsti <= i < dsti + 4 ==> m2[i] == m1[i]) && (
            forall|i: int| m0.len() <= i < m1.len() ==> m2[i] == m1[i]) && tb2.len() >= tb1.len()
                && (forall|i: int| tb0.len() <= i < tb1.len() ==> tb2[i] == tb1[i])) implies (
        #[trigger] lift_spec(Ty::Own(rid), m2, tb2, dsti) matches Some(out) && out.0 == ValV::Own(
            tok,
        ) && out.1.len() == tb2.len() && (forall|i: int|
            0 <= i < tb2.len() && !(tb0.len() <= i < tb1.len()) ==> out.1[i] == tb2[i])) by {
            assert(m2.subrange(dsti, dsti + 4) =~= m1.subrange(dsti, dsti + 4));
            assert(tb2[rep as int] == Some(tok));
        }
    }
    Ok(())
}

/// Lowers a borrowed handle: pushes the token and writes the fresh
/// representation; lifting it back reads without consuming.
fn lower_borrow_at(rid: u32, tok: Token, m: &mut Memory, tbl: &mut ResourceTable, dst: usize) -> (r:
    Result<(), Error>)
    requires
        dst + 4 <= old(m)@.len(),
        tok.ty == rid,
    ensures
        r is Ok ==> frame_ok(old(m)@, final(m)@, dst as int, 4) && table_grew(
            old(tbl)@,
            final(tbl)@,
        ) && reads_back(
            Ty::Borrow(rid),
            ValV::Borrow(tok),
            old(m)@,
            final(m)@,
            old(tbl)@,
            final(tbl)@,
            dst as int,
        ),
        r is Ok ==> final(m)@.len() == old(m)@.len() && final(tbl)@.len() == old(tbl)@.len() + 1,
        r is Ok <==> old(tbl)@.len() <= u32::MAX,
        r matches Err(e) ==> e.kind == ErrorKind::EngineError && final(m)@ == old(m)@
            && final(tbl)@ == old(tbl)@,
{
    let total = m.size();
    let rep = match tbl.push(tok) {
        Ok(rep) => rep,
        Err(e) => {
            return Err(e);
        },
    };
    m.write_u32(dst, rep);
    proof {
        lemma_auto_spec_u32_to_from_le_bytes();
        assert(vstd::bytes::spec_u32_to_le_bytes(rep).len() == 4);
        let m0 = old(m)@;
        let m1 = m@;
        let tb0 = old(tbl)@;
        let tb1 = tbl@;
        let dsti = dst as int;
        assert forall|m2: Seq<u8>, tb2: Seq<Option<Token>>|
            (m2.len() >= m1.len() && (forall|i: int| dsti <= i < dsti + 4 ==> m2[i] == m1[i]) && (
            forall|i: int| m0.len() <= i < m1.len() ==> m2[i] == m1[i]) && tb2.len() >= tb1.len()
                && (forall|i: int| tb0.len() <= i < tb1.len() ==> tb2[i] == tb1[i])) implies (
        #[trigger] lift_spec(Ty::Borrow(rid), m2, tb2, dsti) matches Some(out) && out.0
            == ValV::Borrow(tok) && out.1.len() == tb2.len() && (forall|i: int|
            0 <= i < tb2.len() && !(tb0.len() <= i < tb1.len()) ==> out.1[i] == tb2[i])) by {
            assert(m2.subrange(dsti, dsti + 4) =~= m1.subrange(dsti, dsti + 4));
            assert(tb2[rep as int] == Some(tok));
        }
    }
    Ok(())
}

/// Lowers an enum value: its case name's discriminant alone.
fn lower_enum_at(ns: &Vec<String>, name: &String, m: &mut Memory, tbl: &ResourceTable, dst: usize)
    -> (r: Result<(), Error>)
    requires
        ty_ok(Ty::Enum(*ns)),
        dst + size_of(Ty::Enum(*ns)) <= old(m)@.len(),
    ensures
        r is Ok ==> frame_ok(old(m)@, final(m)@, dst as int, size_of(Ty::Enum(*ns))) && reads_back(
            Ty::Enum(*ns),
            ValV::Enum(name@),
            old(m)@,
            final(m)@,
            tbl@,
            tbl@,
            dst as int,
        ) && has_type(ValV::Enum(name@), Ty::Enum(*ns)),
        r is Ok ==> final(m)@.len() == old(m)@.len(),
        r matches Err(e) ==> e.kind == ErrorKind::UnknownDiscriminant && !has_type(
            ValV::Enum(name@),
            Ty::Enum(*ns),
        ) && final(m)@ == old(m)@,
    decreases 0int,
{
    let total = m.size();
    let idx = match find_name_exec(ns, name) {
        Some(i) => i,
        None => {
            return Err(Error::new(ErrorKind::UnknownDiscriminant));
        },
    };
    let w = match crate::layout::disc_width(ns.len() as u64) {
        Ok(w) => w,
        Err(_) => {
            proof {
                assert(false);
            }
            return Err(Error::new(ErrorKind::UnknownDiscriminant));
        },
    };
    write_disc_at(m, dst, w, idx as u64);
    proof {
        lemma_find_name_found(ns@, name@, 0);
        let m0 = old(m)@;
        let m1 = m@;
        let dsti = dst as int;
        let t = Ty::Enum(*ns);
        assert forall|m2: Seq<u8>, tb2: Seq<Option<Token>>|
            (m2.len() >= m1.len() && (forall|i: int|
                dsti <= i < dsti + size_of(t) ==> m2[i] == m1[i]) && (forall|i: int|
                m0.len() <= i < m1.len() ==> m2[i] == m1[i]) && tb2.len() >= tbl@.len() && (
            forall|i: int| tbl@.len() <= i < tbl@.len() ==> tb2[i] == tbl@[i])) implies (
        #[trigger] lift_spec(t, m2, tb2, dsti) matches Some(out) && out.0 == ValV::Enum(name@)
            && out.1.len() == tb2.len() && (forall|i: int|
            0 <= i < tb2.len() && !(tbl@.len() <= i < tbl@.len()) ==> out.1[i] == tb2[i])) by {
            if w == 1 {
                assert(m2[dsti] == m1[dsti]);
            } else if w == 2 {
                assert(m2.subrange(dsti, dsti + 2) =~= m1.subrange(dsti, dsti + 2));
            } else {
                assert(m2.subrange(dsti, dsti + 4) =~= m1.subrange(dsti, dsti + 4));
            }
            assert(read_disc(m2, dsti, w as int) == read_disc(m1, dsti, w as int));
        }
    }
    Ok(())
}

} // verus!

verus! {

/// Setting bit `i` leaves every other bit alone and turns bit `i` on.
proof fn lemma_bit_or(b: u32, i: u32, p: u32)
    requires
        i < 32,
        p < 32,
    ensures
        p == i ==> ((b | (1u32 << i)) >> p) & 1 == 1,
        p != i ==> ((b | (1u32 << i)) >> p) & 1 == (b >> p) & 1,
{
    assert(i < 32 && p < 32 && p == i ==> ((b | (1u32 << i)) >> p) & 1 == 1) by (bit_vector);
    assert(i < 32 && p < 32 && p != i ==> ((b | (1u32 << i)) >> p) & 1 == (b >> p) & 1)
        by (bit_vector);
}

/// Setting a low bit keeps the bitmap inside its packed width.
proof fn lemma_bit_or_bound(b: u32, i: u32)
    requires
        i < 32,
    ensures
        b < 256 && i < 8 ==> (b | (1u32 << i)) < 256,
        b < 65536 && i < 16 ==> (b | (1u32 << i)) < 65536,
{
    assert(b < 256 && i < 8 && i < 32 ==> (b | (1u32 << i)) < 256) by (bit_vector);
    assert(b < 65536 && i < 16 && i < 32 ==> (b | (1u32 << i)) < 65536) by (bit_vector);
}

/// Two bitmaps that agree on their low `k` bits select the same names.
proof fn lemma_flags_names_bits(ns: Seq<String>, b1: u32, b2: u32, k: int)
    requires
        forall|p: int|
            0 <= p < k ==> (#[trigger] (b1 >> (p as u32)) & 1) == ((b2 >> (p as u32)) & 1),
    ensures
        flags_names(ns, b1, k) == flags_names(ns, b2, k),
    decreases k,
{
    if 0 < k <= ns.len() {
        lemma_flags_names_bits(ns, b1, b2, k - 1);
    }
}

/// Lowers a flags value: walks the schema's names in order, matching the
/// value's names as an ordered selection, and packs the matched bits.
fn lower_flags_at(
    ns: &Vec<String>,
    names: &Vec<String>,
    m: &mut Memory,
    tbl: &ResourceTable,
    dst: usize,
) -> (r: Result<(), Error>)
    requires
        ty_ok(Ty::Flags(*ns)),
        dst + size_of(Ty::Flags(*ns)) <= old(m)@.len(),
    ensures
        r is Ok ==> frame_ok(old(m)@, final(m)@, dst as int, size_of(Ty::Flags(*ns)))
            && reads_back(
            Ty::Flags(*ns),
            ValV::Flags(names_view(names@)),
            old(m)@,
            final(m)@,
            tbl@,
            tbl@,
            dst as int,
        ),
        r is Ok <==> has_type(ValV::Flags(names_view(names@)), Ty::Flags(*ns)),
        r is Ok ==> final(m)@.len() == old(m)@.len() && flags_bits_canon(
            final(m)@,
            dst as int,
            ns@.len() as int,
        ),
        r matches Err(e) ==> e.kind == ErrorKind::TypeMismatch && final(m)@ == old(m)@,
{
    let total = m.size();
    let ghost nv = names_view(names@);
    let mut bits: u32 = 0;
    let mut j: usize = 0;
    let mut k: usize = 0;
    proof {
        assert forall|p: int| 0 <= p < 32 implies (#[trigger] (0u32 >> (p as u32)) & 1) == 0 by {
            let pu = p as u32;
            assert(pu < 32 ==> (0u32 >> pu) & 1 == 0) by (bit_vector);
        }
        assert(flags_names(ns@, 0u32, 0) =~= names_view(names@).subrange(0, 0));
    }
    while k < ns.len()
        invariant
            k <= ns@.len(),
            j <= names@.len(),
            ns@.len() <= 32,
            nv == names_view(names@),
            crate::value::flags_has_type_from(nv, ns@, 0, 0)
                == crate::value::flags_has_type_from(nv, ns@, j as int, k as int),
            flags_names(ns@, bits, k as int) == nv.subrange(0, j as int),
            forall|p: int| k <= p < 32 ==> (#[trigger] (bits >> (p as u32)) & 1) == 0,
            ns@.len() <= 8 ==> bits < 256,
            ns@.len() <= 16 ==> bits < 65536,
        decreases ns@.len() - k,
    {
        let ghost old_bits = bits;
        let matched = j < names.len() && names[j].eq(&ns[k]);
        if matched {
            bits = bits | (1u32 << (k as u32));
            proof {
                assert forall|p: int| 0 <= p < 32 implies (#[trigger] (bits >> (p as u32)) & 1)
                    == (if p == k as int {
                    1u32
                } else {
                    (old_bits >> (p as u32)) & 1
                }) by {
                    lemma_bit_or(old_bits, k as u32, p as u32);
                }
                lemma_bit_or_bound(old_bits, k as u32);
                lemma_flags_names_bits(ns@, bits, old_bits, k as int);
                assert(flags_names(ns@, bits, k as int + 1) =~= nv.subrange(0, j as int + 1));
            }
            j = j + 1;
        } else {
            proof {
                assert(((bits >> (k as u32)) & 1) == 0);
                assert(flags_names(ns@, bits, k as int + 1) =~= nv.subrange(0, j as int));
            }
        }
        k = k + 1;
    }
    if j != names.len() {
        proof {
            assert(!has_type(ValV::Flags(nv), Ty::Flags(*ns)));
        }
        return Err(Error::new(ErrorKind::TypeMismatch));
    }
    let w = match crate::layout::flags_width(ns.len()) {
        Ok(w) => w,
        Err(_) => {
            proof {
                assert(false);
            }
            return Err(Error::new(ErrorKind::TypeMismatch));
        },
    };
    write_disc_at(m, dst, w, bits as u64);
    proof {
        let m0 = old(m)@;
        let m1 = m@;
        let dsti = dst as int;
        let t = Ty::Flags(*ns);
        assert(nv.subrange(0, names@.len() as int) =~= nv);
        assert(flags_bits_canon(m1, dsti, ns@.len() as int)) by {
            let b = (bits as u64) as int;
            assert(read_disc(m1, dsti, flags_size(ns@.len() as int)) == Some(b));
            assert(b as u32 == bits);
            assert forall|p: int| ns@.len() <= p < 32 implies (#[trigger] ((b as u32) >> (
            p as u32)) & 1u32) == 0u32 by {
                assert(((bits >> (p as u32)) & 1) == 0);
            }
        }
        assert forall|m2: Seq<u8>, tb2: Seq<Option<Token>>|
            (m2.len() >= m1.len() && (forall|i: int|
                dsti <= i < dsti + size_of(t) ==> m2[i] == m1[i]) && (forall|i: int|
                m0.len() <= i < m1.len() ==> m2[i] == m1[i]) && tb2.len() >= tbl@.len() && (
            forall|i: int| tbl@.len() <= i < tbl@.len() ==> tb2[i] == tbl@[i])) implies (
        #[trigger] lift_spec(t, m2, tb2, dsti) matches Some(out) && out.0 == ValV::Flags(nv)
            && out.1.len() == tb2.len() && (forall|i: int|
            0 <= i < tb2.len() && !(tbl@.len() <= i < tbl@.len()) ==> out.1[i] == tb2[i])) by {
            if w == 1 {
                assert(m2[dsti] == m1[dsti]);
            } else if w == 2 {
                assert(m2.subrange(dsti, dsti + 2) =~= m1.subrange(dsti, dsti + 2));
            } else {
                assert(m2.subrange(dsti, dsti + 4) =~= m1.subrange(dsti, dsti + 4));
            }
            assert(read_disc(m2, dsti, w as int) == read_disc(m1, dsti, w as int));
        }
    }
    Ok(())
}

/// Lowers a string: an empty one becomes the pair `(0, 0)`; otherwise its
/// UTF-8 bytes go to a fresh 1-aligned allocation and the pair points at
/// them.
fn lower_str_at(s: &String, m: &mut Memory, tbl: &ResourceTable, dst: usize) -> (r: Result<
    (),
    Error,
>)
    requires
        dst + 16 <= old(m)@.len(),
    ensures
        r is Ok ==> frame_ok(old(m)@, final(m)@, dst as int, 16) && reads_back(
            Ty::Str,
            ValV::Str(s@),
            old(m)@,
            final(m)@,
            tbl@,
            tbl@,
            dst as int,
        ),
        r is Ok ==> final(m)@.len() <= old(m)@.len() + encode_utf8(s@).len(),
        r is Ok ==> pair_canon(
            final(m)@,
            dst as int,
            encode_utf8(s@).len() as int,
            1,
            old(m)@.len() as int,
        ),
        r matches Err(e) ==> e.kind == ErrorKind::AllocFailed && old(m)@.len() + encode_utf8(
            s@,
        ).len() > usize::MAX as int,
{
    let total = m.size();
    let bytes = s.as_str().as_bytes_vec();
    proof {
        assert(bytes@ == encode_utf8(s@));
        vstd::utf8::encode_utf8_valid_utf8(s@);
        vstd::utf8::encode_utf8_decode_utf8(s@);
        lemma_auto_spec_u64_to_from_le_bytes();
        assert(vstd::bytes::spec_u64_to_le_bytes(0u64).len() == 8);
    }
    if bytes.len() == 0 {
        m.write_u64(dst, 0);
        m.write_u64(dst + 8, 0);
        proof {
            assert(bytes@ =~= Seq::<u8>::empty());
            assert(vstd::utf8::decode_utf8(vstd::utf8::encode_utf8(s@)) == s@);
            assert(s@ =~= Seq::<char>::empty());
            let m0 = old(m)@;
            let m1 = m@;
            let dsti = dst as int;
            assert forall|m2: Seq<u8>, tb2: Seq<Option<Token>>|
                (m2.len() >= m1.len() && (forall|i: int| dsti <= i < dsti + 16 ==> m2[i] == m1[i])
                    && (forall|i: int| m0.len() <= i < m1.len() ==> m2[i] == m1[i]) && tb2.len()
                    >= tbl@.len() && (forall|i: int|
                    tbl@.len() <= i < tbl@.len() ==> tb2[i] == tbl@[i])) implies (
            #[trigger] lift_spec(Ty::Str, m2, tb2, dsti) matches Some(out) && out.0 == ValV::Str(
                s@,
            ) && out.1.len() == tb2.len() && (forall|i: int|
                0 <= i < tb2.len() && !(tbl@.len() <= i < tbl@.len()) ==> out.1[i] == tb2[i])) by {
                assert(m2.subrange(dsti, dsti + 8) =~= m1.subrange(dsti, dsti + 8));
                assert(m2.subrange(dsti + 8, dsti + 16) =~= m1.subrange(dsti + 8, dsti + 16));
            }
            assert(m1.subrange(dsti, dsti + 8) =~= vstd::bytes::spec_u64_to_le_bytes(0u64));
            assert(m1.subrange(dsti + 8, dsti + 16) =~= vstd::bytes::spec_u64_to_le_bytes(0u64));
            assert(pair_canon(m1, dsti, encode_utf8(s@).len() as int, 1, m0.len() as int));
        }
        Ok(())
    } else {
        proof {
            crate::layout::lemma_align_up(old(m)@.len() as int, 1);
        }
        let addr = match m.allocate(bytes.len(), 1) {
            Ok(a) => a,
            Err(e) => {
                proof {
                    assert(align_up(old(m)@.len() as int, 1) == old(m)@.len() as int);
                }
                return Err(e);
            },
        };
        m.write_bytes(addr, &bytes);
        m.write_u64(dst, addr as u64);
        m.write_u64(dst + 8, bytes.len() as u64);
        proof {
            assert(vstd::bytes::spec_u64_to_le_bytes(addr as u64).len() == 8);
            assert(vstd::bytes::spec_u64_to_le_bytes(bytes@.len() as u64).len() == 8);
            let m0 = old(m)@;
            let m1 = m@;
            let dsti = dst as int;
            let addri = addr as int;
            let n = bytes@.len() as int;
            assert(m0.len() <= addri);
            assert(m1.len() == addri + n);
            assert(m1.subrange(dsti, dsti + 8) =~= vstd::bytes::spec_u64_to_le_bytes(
                addr as u64,
            ));
            assert(forall|q: int| 0 <= q < n ==> m1[addri + q] == bytes@[q]);
            assert forall|m2: Seq<u8>, tb2: Seq<Option<Token>>|
                (m2.len() >= m1.len() && (forall|i: int| dsti <= i < dsti + 16 ==> m2[i] == m1[i])
                    && (forall|i: int| m0.len() <= i < m1.len() ==> m2[i] == m1[i]) && tb2.len()
                    >= tbl@.len() && (forall|i: int|
                    tbl@.len() <= i < tbl@.len() ==> tb2[i] == tbl@[i])) implies (
            #[trigger] lift_spec(Ty::Str, m2, tb2, dsti) matches Some(out) && out.0 == ValV::Str(
                s@,
            ) && out.1.len() == tb2.len() && (forall|i: int|
                0 <= i < tb2.len() && !(tbl@.len() <= i < tbl@.len()) ==> out.1[i] == tb2[i])) by {
                assert(m2.subrange(dsti, dsti + 8) =~= m1.subrange(dsti, dsti + 8));
                assert(m2.subrange(dsti + 8, dsti + 16) =~= m1.subrange(dsti + 8, dsti + 16));
                assert forall|q: int| 0 <= q < n implies m2[addri + q] == bytes@[q] by {
                    assert(m2[addri + q] == m1[addri + q]);
                }
                assert(m2.subrange(addri, addri + n) =~= bytes@);
            }
            assert(m1.subrange(dsti + 8, dsti + 16) =~= vstd::bytes::spec_u64_to_le_bytes(
                bytes@.len() as u64,
            ));
            assert(addri % 1 == 0);
            assert(pair_canon(m1, dsti, encode_utf8(s@).len() as int, 1, m0.len() as int));
        }
        Ok(())
    }
}

} // verus!


verus! {

/// Lowers an option value: a one-byte discriminant, then the payload when
/// present, at the padded payload offset.
fn lower_opt_at(
    t: &Ty,
    inner: &Ty,
    pv: &Option<Box<Value>>,
    m: &mut Memory,
    tbl: &mut ResourceTable,
    dst: usize,
) -> (r: Result<(), Error>)
    requires
        ty_ok(*t),
        (match *t {
            Ty::Opt(b) => *b == *inner,
            _ => false,
        }),
        dst + size_of(*t) <= old(m)@.len(),
    ensures
        r is Ok ==> frame_ok(old(m)@, final(m)@, dst as int, size_of(*t)) && table_grew(
            old(tbl)@,
            final(tbl)@,
        ) && reads_back(
            *t,
            ValV::Opt(payload_view(*pv)),
            old(m)@,
            final(m)@,
            old(tbl)@,
            final(tbl)@,
            dst as int,
        ) && has_type(ValV::Opt(payload_view(*pv)), *t),
        r is Ok ==> final(m)@.len() <= old(m)@.len() + alloc_bound(*t, ValV::Opt(payload_view(*pv)))
            && final(tbl)@.len() <= old(tbl)@.len() + handle_count(ValV::Opt(payload_view(*pv))),
        r matches Err(e) ==> lower_err_kind(e.kind),
        r matches Err(e) && e.kind != ErrorKind::AllocFailed && e.kind != ErrorKind::EngineError
            ==> !has_type(ValV::Opt(payload_view(*pv)), *t),
        r matches Err(e) && e.kind == ErrorKind::AllocFailed ==> old(m)@.len() + alloc_bound(
            *t,
            ValV::Opt(payload_view(*pv)),
        ) > usize::MAX as int,
        r matches Err(e) && e.kind == ErrorKind::EngineError ==> old(tbl)@.len() + handle_count(
            ValV::Opt(payload_view(*pv)),
        ) > u32::MAX as int + 1,
    decreases *pv, 9int, 0int,
{
    let ghost vv = ValV::Opt(payload_view(*pv));
    let total = m.size();
    let l = match crate::layout::layout_of(inner) {
        Ok(l) => l,
        Err(_) => {
            proof {
                assert(false);
            }
            return Err(Error::new(ErrorKind::EngineError));
        },
    };
    proof {
        lemma_ty_props(*inner);
        lemma_payload_in_tagged(1, l.align as int, l.size as int, l.size as int);
    }
    let po_off = match align_up_usize(1, l.align) {
        Some(v) => v,
        None => {
            proof {
                assert(false);
            }
            return Err(Error::new(ErrorKind::EngineError));
        },
    };
    match pv {
        None => {
            m.write_u8(dst, 0);
            proof {
                let m0 = old(m)@;
                let m1 = m@;
                let dsti = dst as int;
                assert forall|m2: Seq<u8>, tb2: Seq<Option<Token>>|
                    (m2.len() >= m1.len() && (forall|i: int|
                        dsti <= i < dsti + size_of(*t) ==> m2[i] == m1[i]) && (forall|i: int|
                        m0.len() <= i < m1.len() ==> m2[i] == m1[i]) && tb2.len() >= tbl@.len() && (
                    forall|i: int| old(tbl)@.len() <= i < tbl@.len() ==> tb2[i] == tbl@[i]))
                    implies (#[trigger] lift_spec(*t, m2, tb2, dsti) matches Some(out) && out.0
                    == vv && out.1.len() == tb2.len() && (forall|i: int|
                    0 <= i < tb2.len() && !(old(tbl)@.len() <= i < tbl@.len()) ==> out.1[i]
                        == tb2[i])) by {
                    assert(m2[dsti] == 0u8);
                }
            }
            Ok(())
        },
        Some(b) => {
            m.write_u8(dst, 1);
            let ghost m_mid = m@;
            let ghost tb_mid = tbl@;
            proof {
                assert(payload_view(*pv)[0] == (*(*b))@);
                assert(alloc_bound(*t, vv) == alloc_bound(*inner, (*(*b))@));
                assert(handle_sum(payload_view(*pv), 0) == 0);
                assert(handle_count(vv) == handle_count((*(*b))@));
                assert(m_mid.len() == old(m)@.len());
            }
            match lower(inner, &**b, m, tbl, dst + po_off) {
                Ok(_) => {},
                Err(e) => {
                    return Err(e);
                },
            }
            proof {
                let m0 = old(m)@;
                let m1 = m@;
                let tb0 = old(tbl)@;
                let tb1 = tbl@;
                let dsti = dst as int;
                let poi = dsti + align_up(1, l.align as int);
                let pvv = (**b)@;
                assert(m1[dsti] == 1u8);
                assert forall|m2: Seq<u8>, tb2: Seq<Option<Token>>|
                    (m2.len() >= m1.len() && (forall|i: int|
                        dsti <= i < dsti + size_of(*t) ==> m2[i] == m1[i]) && (forall|i: int|
                        m0.len() <= i < m1.len() ==> m2[i] == m1[i]) && tb2.len() >= tb1.len() && (
                    forall|i: int| tb0.len() <= i < tb1.len() ==> tb2[i] == tb1[i])) implies (
                #[trigger] lift_spec(*t, m2, tb2, dsti) matches Some(out) && out.0 == vv
                    && out.1.len() == tb2.len() && (forall|i: int|
                    0 <= i < tb2.len() && !(tb0.len() <= i < tb1.len()) ==> out.1[i] == tb2[i]))
                    by {
                    assert(m2[dsti] == 1u8);
                    assert(forall|i: int| poi <= i < poi + size_of(*inner) ==> m2[i] == m1[i]);
                    assert(forall|i: int| m_mid.len() <= i < m1.len() ==> m2[i] == m1[i]);
                    assert(forall|i: int| tb_mid.len() <= i < tb1.len() ==> tb2[i] == tb1[i]);
                    assert(lift_spec(*inner, m2, tb2, poi) matches Some(pout) && pout.0 == pvv
                        && pout.1.len() == tb2.len() && (forall|i: int|
                        0 <= i < tb2.len() && !(tb_mid.len() <= i < tb1.len()) ==> pout.1[i]
                            == tb2[i]));
                }
            }
            Ok(())
        },
    }
}

} // verus!

verus! {

/// Writes `v` into the caller's buffer at `dst` in the canonical layout.
///
/// The caller supplies at least `size_of` bytes at `dst`.  On success the
/// returned address is the first past the written region; nothing outside
/// that region and the fresh allocations changed, the resource table only
/// gained entries, and — the round-trip law — lifting the written region
/// yields the value back, consuming exactly the pushed table entries.
/// A `TypeMismatch` or `UnknownDiscriminant` failure means the value does
/// not fit the schema; `AllocFailed` is owed only to an allocation that
/// genuinely overflows the address space, `EngineError` only to an
/// exhausted representation space — so success is owed whenever the value
/// fits the schema and both budgets fit.
pub fn lower(t: &Ty, v: &Value, m: &mut Memory, tbl: &mut ResourceTable, dst: usize) -> (r: Result<
    usize,
    Error,
>)
    requires
        ty_ok(*t),
        dst + size_of(*t) <= old(m)@.len(),
    ensures
        r matches Ok(next) ==> next as int == dst + size_of(*t),
        r is Ok ==> frame_ok(old(m)@, final(m)@, dst as int, size_of(*t)),
        r is Ok ==> table_grew(old(tbl)@, final(tbl)@),
        r is Ok ==> reads_back(*t, v@, old(m)@, final(m)@, old(tbl)@, final(tbl)@, dst as int),
        r is Ok ==> has_type(v@, *t),
        r is Ok ==> final(m)@.len() <= old(m)@.len() + alloc_bound(*t, v@)
            && final(tbl)@.len() <= old(tbl)@.len() + handle_count(v@),
        r is Ok ==> lower_canon(*t, v@, old(m)@, final(m)@, dst as int),
        r matches Err(e) ==> lower_err_kind(e.kind),
        r matches Err(e) && e.kind != ErrorKind::AllocFailed && e.kind != ErrorKind::EngineError
            ==> !has_type(v@, *t),
        r matches Err(e) && e.kind == ErrorKind::AllocFailed ==> old(m)@.len() + alloc_bound(
            *t,
            v@,
        ) > usize::MAX as int,
        r matches Err(e) && e.kind == ErrorKind::EngineError ==> old(tbl)@.len() + handle_count(v@)
            > u32::MAX as int + 1,
        has_type(v@, *t) && old(m)@.len() + alloc_bound(*t, v@) <= usize::MAX as int
            && old(tbl)@.len() + handle_count(v@) <= u32::MAX as int + 1 ==> r is Ok,
    decreases *v, 7int, 0int,
{
    let r = lower_core(t, v, m, tbl, dst);
    proof {
        if has_type(v@, *t) && old(m)@.len() + alloc_bound(*t, v@) <= usize::MAX as int && old(
            tbl,
        )@.len() + handle_count(v@) <= u32::MAX as int + 1 {
            match &r {
                Ok(_) => {},
                Err(e) => {
                    assert(false);
                },
            }
        }
    }
    r
}

/// The dispatch behind [`lower`]: one arm per schema former.
#[verifier::rlimit(100)]
fn lower_core(t: &Ty, v: &Value, m: &mut Memory, tbl: &mut ResourceTable, dst: usize) -> (r:
    Result<usize, Error>)
    requires
        ty_ok(*t),
        dst + size_of(*t) <= old(m)@.len(),
    ensures
        r matches Ok(next) ==> next as int == dst + size_of(*t),
        r is Ok ==> frame_ok(old(m)@, final(m)@, dst as int, size_of(*t)),
        r is Ok ==> table_grew(old(tbl)@, final(tbl)@),
        r is Ok ==> reads_back(*t, v@, old(m)@, final(m)@, old(tbl)@, final(tbl)@, dst as int),
        r is Ok ==> has_type(v@, *t),
        r is Ok ==> final(m)@.len() <= old(m)@.len() + alloc_bound(*t, v@)
            && final(tbl)@.len() <= old(tbl)@.len() + handle_count(v@),
        r is Ok ==> lower_canon(*t, v@, old(m)@, final(m)@, dst as int),
        r matches Err(e) ==> lower_err_kind(e.kind),
        r matches Err(e) && e.kind != ErrorKind::AllocFailed && e.kind != ErrorKind::EngineError
            ==> !has_type(v@, *t),
        r matches Err(e) && e.kind == ErrorKind::AllocFailed ==> old(m)@.len() + alloc_bound(
            *t,
            v@,
        ) > usize::MAX as int,
        r matches Err(e) && e.kind == ErrorKind::EngineError ==> old(tbl)@.len() + handle_count(v@)
            > u32::MAX as int + 1,
    decreases *v, 6int, 0int,
{
    let lt = match crate::layout::layout_of(t) {
        Ok(l) => l,
        Err(_) => {
            proof {
                assert(false);
            }
            return Err(Error::new(ErrorKind::EngineError));
        },
    };
    let total = m.size();
    let next = dst + lt.size;
    match t {
        Ty::Bool | Ty::S8 | Ty::U8 | Ty::S16 | Ty::U16 | Ty::S32 | Ty::U32 | Ty::S64 | Ty::U64
            | Ty::F32 | Ty::F64 | Ty::Char => {
            match lower_prim(t, v, m, tbl, dst) {
                Ok(n) => {
                    proof {
                        lemma_prim_budget(*t, v@);
                    }
                    Ok(n)
                },
                Err(e) => Err(e),
            }
        },
        Ty::Str => {
            match v {
                Value::Str(s) => {
                    proof {
                        assert(v@ == ValV::Str(s@));
                        assert(alloc_bound(*t, v@) == encode_utf8(s@).len() as int);
                        assert(handle_count(v@) == 0);
                    }
                    match lower_str_at(s, m, tbl, dst) {
                        Ok(_) => Ok(next),
                        Err(e) => Err(e),
                    }
                },
                _ => Err(Error::new(ErrorKind::TypeMismatch)),
            }
        },
        Ty::Enum(ns) => {
            match v {
                Value::Enum(name) => {
                    proof {
                        assert(alloc_bound(*t, v@) == 0);
                        assert(handle_count(v@) == 0);
                    }
                    match lower_enum_at(ns, name, m, tbl, dst) {
                        Ok(_) => Ok(next),
                        Err(e) => Err(e),
                    }
                },
                _ => Err(Error::new(ErrorKind::TypeMismatch)),
            }
        },
        Ty::Flags(ns) => {
            match v {
                Value::Flags(names) => {
                    proof {
                        assert(alloc_bound(*t, v@) == 0);
                        assert(handle_count(v@) == 0);
                    }
                    match lower_flags_at(ns, names, m, tbl, dst) {
                        Ok(_) => Ok(next),
                        Err(e) => Err(e),
                    }
                },
                _ => Err(Error::new(ErrorKind::TypeMismatch)),
            }
        },
        Ty::Own(rid) => {
            match v {
                Value::Own(tok) => {
                    if tok.ty != *rid {
                        return Err(Error::new(ErrorKind::TypeMismatch));
                    }
                    proof {
                        assert(alloc_bound(*t, v@) == 0);
                        assert(handle_count(v@) == 1);
                    }
                    match lower_own_at(*rid, *tok, m, tbl, dst) {
                        Ok(_) => Ok(next),
                        Err(e) => Err(e),
                    }
                },
                _ => Err(Error::new(ErrorKind::TypeMismatch)),
            }
        },
        Ty::Borrow(rid) => {
            match v {
                Value::Borrow(tok) => {
                    if tok.ty != *rid {
                        return Err(Error::new(ErrorKind::TypeMismatch));
                    }
                    proof {
                        assert(alloc_bound(*t, v@) == 0);
                        assert(handle_count(v@) == 1);
                    }
                    match lower_borrow_at(*rid, *tok, m, tbl, dst) {
                        Ok(_) => Ok(next),
                        Err(e) => Err(e),
                    }
                },
                _ => Err(Error::new(ErrorKind::TypeMismatch)),
            }
        },
        Ty::Opt(_) | Ty::Res(_, _) | Ty::Variant(_) | Ty::List(_) | Ty::Record(_)
            | Ty::Tuple(_) => lower_aggregate(t, v, m, tbl, dst),
    }
}

/// The aggregate half of the dispatch: the formers with nested payloads.
#[verifier::rlimit(100)]
fn lower_aggregate(t: &Ty, v: &Value, m: &mut Memory, tbl: &mut ResourceTable, dst: usize) -> (r:
    Result<usize, Error>)
    requires
        ty_ok(*t),
        dst + size_of(*t) <= old(m)@.len(),
        t is Opt || t is Res || t is Variant || t is List || t is Record || t is Tuple,
    ensures
        r matches Ok(next) ==> next as int == dst + size_of(*t),
        r is Ok ==> frame_ok(old(m)@, final(m)@, dst as int, size_of(*t)),
        r is Ok ==> table_grew(old(tbl)@, final(tbl)@),
        r is Ok ==> reads_back(*t, v@, old(m)@, final(m)@, old(tbl)@, final(tbl)@, dst as int),
        r is Ok ==> has_type(v@, *t),
        r is Ok ==> final(m)@.len() <= old(m)@.len() + alloc_bound(*t, v@)
            && final(tbl)@.len() <= old(tbl)@.len() + handle_count(v@),
        r is Ok ==> lower_canon(*t, v@, old(m)@, final(m)@, dst as int),
        r matches Err(e) ==> lower_err_kind(e.kind),
        r matches Err(e) && e.kind != ErrorKind::AllocFailed && e.kind != ErrorKind::EngineError
            ==> !has_type(v@, *t),
        r matches Err(e) && e.kind == ErrorKind::AllocFailed ==> old(m)@.len() + alloc_bound(
            *t,
            v@,
        ) > usize::MAX as int,
        r matches Err(e) && e.kind == ErrorKind::EngineError ==> old(tbl)@.len() + handle_count(v@)
            > u32::MAX as int + 1,
    decreases *v, 5int, 0int,
{
    let lt = match crate::layout::layout_of(t) {
        Ok(l) => l,
        Err(_) => {
            proof {
                assert(false);
            }
            return Err(Error::new(ErrorKind::EngineError));
        },
    };
    let total = m.size();
    let next = dst + lt.size;
    match t {
        Ty::Opt(inner) => {
            match v {
                Value::Opt(pv) => {
                    proof {
                        assert(decreases_to!(*v => (*v)->Opt_0));
                        assert(v@ == ValV::Opt(payload_view(*pv)));
                    }
                    match lower_opt_at(t, &**inner, pv, m, tbl, dst) {
                        Ok(_) => Ok(next),
                        Err(e) => Err(e),
                    }
                },
                _ => Err(Error::new(ErrorKind::TypeMismatch)),
            }
        },
        Ty::Res(ok_ty, err_ty) => {
            match v {
                Value::Res(rv) => {
                    proof {
                        assert(decreases_to!(*v => (*v)->Res_0));
                        assert(v@ == res_view(*rv));
                    }
                    match lower_res_at(t, ok_ty, err_ty, rv, m, tbl, dst) {
                        Ok(_) => Ok(next),
                        Err(e) => Err(e),
                    }
                },
                _ => Err(Error::new(ErrorKind::TypeMismatch)),
            }
        },
        Ty::Variant(cs) => {
            match v {
                Value::Variant(name, pv) => {
                    proof {
                        assert(decreases_to!(*v => (*v)->Variant_1));
                        assert(v@ == ValV::Variant(name@, payload_view(*pv)));
                    }
                    match lower_variant_at(t, cs, name, pv, m, tbl, dst) {
                        Ok(_) => Ok(next),
                        Err(e) => Err(e),
                    }
                },
                _ => Err(Error::new(ErrorKind::TypeMismatch)),
            }
        },
        Ty::List(elem) => {
            match v {
                Value::List(items) => {
                    proof {
                        assert(decreases_to!(*v => (*v)->List_0));
                        assert(v@ == ValV::List(seq_view(items@)));
                        assert(seq_view(items@).len() == items@.len());
                        assert(*((*t)->List_0) == **elem);
                        assert(alloc_bound(*t, v@) == 7 + items@.len() * size_of(**elem)
                            + alloc_sum_list(**elem, seq_view(items@), items@.len() as int));
                        assert(handle_count(v@) == handle_sum(
                            seq_view(items@),
                            items@.len() as int,
                        ));
                    }
                    match lower_list_at(t, &**elem, items, m, tbl, dst) {
                        Ok(_) => Ok(next),
                        Err(e) => Err(e),
                    }
                },
                _ => Err(Error::new(ErrorKind::TypeMismatch)),
            }
        },
        Ty::Record(fs) => {
            match v {
                Value::Record(vals) => {
                    proof {
                        assert(decreases_to!(*v => (*v)->Record_0));
                        assert(v@ == ValV::Record(seq_view(vals@)));
                        assert(seq_view(vals@).len() == vals@.len());
                        assert(alloc_bound(*t, v@) == alloc_sum_fields(
                            fs@,
                            seq_view(vals@),
                            vals@.len() as int,
                        ));
                        assert(handle_count(v@) == handle_sum(
                            seq_view(vals@),
                            vals@.len() as int,
                        ));
                    }
                    match lower_record_at(t, fs, vals, m, tbl, dst) {
                        Ok(_) => Ok(next),
                        Err(e) => Err(e),
                    }
                },
                _ => Err(Error::new(ErrorKind::TypeMismatch)),
            }
        },
        Ty::Tuple(ts) => {
            match v {
                Value::Tuple(vals) => {
                    proof {
                        assert(decreases_to!(*v => (*v)->Tuple_0));
                        assert(v@ == ValV::Tuple(seq_view(vals@)));
                        assert(seq_view(vals@).len() == vals@.len());
                        assert(alloc_bound(*t, v@) == alloc_sum_elems(
                            ts@,
                            seq_view(vals@),
                            vals@.len() as int,
                        ));
                        assert(handle_count(v@) == handle_sum(
                            seq_view(vals@),
                            vals@.len() as int,
                        ));
                    }
                    match lower_tuple_at(t, ts, vals, m, tbl, dst) {
                        Ok(_) => Ok(next),
                        Err(e) => Err(e),
                    }
                },
                _ => Err(Error::new(ErrorKind::TypeMismatch)),
            }
        },
        _ => {
            proof {
                assert(false);
            }
            Err(Error::new(ErrorKind::TypeMismatch))
        },
    }
}

} // verus!

verus! {

/// A case name's first index, walked from `k`, is past `k` and names that
/// case.
proof fn lemma_find_case_found(cs: Seq<CaseTy>, name: Seq<char>, k: int)
    requires
        0 <= k,
        find_case(cs, name, k) >= 0,
    ensures
        k <= find_case(cs, name, k) < cs.len(),
        cs[find_case(cs, name, k)].name@ == name,
    decreases cs.len() - k,
{
    if k < cs.len() && cs[k].name@ != name {
        lemma_find_case_found(cs, name, k + 1);
    }
}

/// First case with the given name, if any.
fn find_case_exec(cs: &Vec<CaseTy>, name: &String) -> (r: Option<usize>)
    ensures
        r matches Some(i) ==> i as int == find_case(cs@, name@, 0) && i < cs@.len(),
        r is None ==> find_case(cs@, name@, 0) == -1,
{
    let mut k: usize = 0;
    while k < cs.len()
        invariant
            k <= cs@.len(),
            find_case(cs@, name@, 0) == find_case(cs@, name@, k as int),
        decreases cs@.len() - k,
    {
        if cs[k].name.eq(name) {
            return Some(k);
        }
        k = k + 1;
    }
    None
}

/// Lowers a result value: a one-byte discriminant picking `ok` or `err`,
/// then that case's optional payload.
#[verifier::rlimit(100)]
fn lower_res_at(
    t: &Ty,
    ok_ty: &Option<Box<Ty>>,
    err_ty: &Option<Box<Ty>>,
    rv: &Result<Option<Box<Value>>, Option<Box<Value>>>,
    m: &mut Memory,
    tbl: &mut ResourceTable,
    dst: usize,
) -> (r: Result<(), Error>)
    requires
        ty_ok(*t),
        (match *t {
            Ty::Res(o, e) => o == *ok_ty && e == *err_ty,
            _ => false,
        }),
        dst + size_of(*t) <= old(m)@.len(),
    ensures
        r is Ok ==> frame_ok(old(m)@, final(m)@, dst as int, size_of(*t)) && table_grew(
            old(tbl)@,
            final(tbl)@,
        ) && reads_back(*t, res_view(*rv), old(m)@, final(m)@, old(tbl)@, final(tbl)@, dst as int)
            && has_type(res_view(*rv), *t),
        r is Ok ==> final(m)@.len() <= old(m)@.len() + alloc_bound(*t, res_view(*rv))
            && final(tbl)@.len() <= old(tbl)@.len() + handle_count(res_view(*rv)),
        r matches Err(e) ==> lower_err_kind(e.kind),
        r matches Err(e) && e.kind != ErrorKind::AllocFailed && e.kind != ErrorKind::EngineError
            ==> !has_type(res_view(*rv), *t),
        r matches Err(e) && e.kind == ErrorKind::AllocFailed ==> old(m)@.len() + alloc_bound(
            *t,
            res_view(*rv),
        ) > usize::MAX as int,
        r matches Err(e) && e.kind == ErrorKind::EngineError ==> old(tbl)@.len() + handle_count(
            res_view(*rv),
        ) > u32::MAX as int + 1,
    decreases *rv, 9int, 0int,
{
    let ghost vv = res_view(*rv);
    proof {
        match rv {
            Ok(p) => {
                assert(vv == ValV::Res(false, payload_view(*p)));
            },
            Err(p) => {
                assert(vv == ValV::Res(true, payload_view(*p)));
            },
        }
    }
    let total = m.size();
    proof {
        lemma_res_opt_props(*ok_ty);
        lemma_res_opt_props(*err_ty);
    }
    let lo = match crate::layout::layout_opt_payload(ok_ty) {
        Ok(l) => l,
        Err(_) => {
            proof {
                assert(false);
            }
            return Err(Error::new(ErrorKind::EngineError));
        },
    };
    let le = match crate::layout::layout_opt_payload(err_ty) {
        Ok(l) => l,
        Err(_) => {
            proof {
                assert(false);
            }
            return Err(Error::new(ErrorKind::EngineError));
        },
    };
    let pa = if lo.align > le.align {
        lo.align
    } else {
        le.align
    };
    let ps = if lo.size > le.size {
        lo.size
    } else {
        le.size
    };
    let po_off = match align_up_usize(1, pa) {
        Some(x) => x,
        None => {
            proof {
                crate::layout::lemma_align_up(1, pa as int);
                assert(false);
            }
            return Err(Error::new(ErrorKind::EngineError));
        },
    };
    proof {
        lemma_payload_in_tagged(1, pa as int, ps as int, opt_size(*ok_ty));
        lemma_payload_in_tagged(1, pa as int, ps as int, opt_size(*err_ty));
    }
    let (is_err, pv, pt) = match rv {
        Ok(p) => (false, p, ok_ty),
        Err(p) => (true, p, err_ty),
    };
    let ghost pti = *pt;
    proof {
        assert(vv == ValV::Res(is_err, payload_view(*pv)));
        assert(has_type(vv, *t) == crate::value::payload_has_opt_type(payload_view(*pv), pti));
    }
    match (pt, pv) {
        (Some(_), None) => {
            proof {
                assert(!has_type(vv, *t));
            }
            return Err(Error::new(ErrorKind::TypeMismatch));
        },
        (None, Some(_)) => {
            proof {
                assert(payload_view(*pv).len() == 1);
                assert(!has_type(vv, *t));
            }
            return Err(Error::new(ErrorKind::TypeMismatch));
        },
        _ => {},
    }
    m.write_u8(dst, if is_err {
        1
    } else {
        0
    });
    let ghost m_mid = m@;
    let ghost tb_mid = tbl@;
    proof {
        assert(m_mid.len() == old(m)@.len());
        match (pt, pv) {
            (Some(ty), Some(b)) => {
                assert(payload_view(*pv)[0] == (*(*b))@);
                assert(alloc_bound(*t, vv) == alloc_bound(*(*ty), (*(*b))@));
                assert(handle_sum(payload_view(*pv), 0) == 0);
                assert(handle_count(vv) == handle_count((*(*b))@));
            },
            (None, None) => {
                assert(alloc_bound(*t, vv) == 0);
                assert(handle_sum(payload_view(*pv), 0) == 0);
                assert(handle_count(vv) == 0);
            },
            _ => {},
        }
    }
    match (pt, pv) {
        (Some(ty), Some(b)) => {
            proof {
                assert(decreases_to!(*rv => *pv));
                assert(decreases_to!(*pv => (*pv)->Some_0));
            }
            match lower(&**ty, &**b, m, tbl, dst + po_off) {
                Ok(_) => {},
                Err(e) => {
                    proof {
                        if e.kind != ErrorKind::AllocFailed && e.kind != ErrorKind::EngineError {
                            assert(!has_type((*(*b))@, *(*ty)));
                            assert(payload_view(*pv)[0] == (*(*b))@);
                            assert(!has_type(vv, *t));
                        }
                    }
                    return Err(e);
                },
            }
        },
        _ => {},
    }
    proof {
        match (pt, pv) {
            (Some(ty), Some(b)) => {
                assert(payload_view(*pv)[0] == (*(*b))@);
                assert(crate::value::payload_has_opt_type(payload_view(*pv), pti));
            },
            (None, None) => {
                assert(crate::value::payload_has_opt_type(payload_view(*pv), pti));
            },
            _ => {
                assert(false);
            },
        }
        assert(has_type(vv, *t));
        let m0 = old(m)@;
        let m1 = m@;
        let tb0 = old(tbl)@;
        let tb1 = tbl@;
        let dsti = dst as int;
        let poi = dsti + align_up(1, pa as int);
        assert(m1[dsti] == (if is_err {
            1u8
        } else {
            0u8
        }));
        assert forall|m2: Seq<u8>, tb2: Seq<Option<Token>>|
            (m2.len() >= m1.len() && (forall|i: int|
                dsti <= i < dsti + size_of(*t) ==> m2[i] == m1[i]) && (forall|i: int|
                m0.len() <= i < m1.len() ==> m2[i] == m1[i]) && tb2.len() >= tb1.len() && (
            forall|i: int| tb0.len() <= i < tb1.len() ==> tb2[i] == tb1[i])) implies (
        #[trigger] lift_spec(*t, m2, tb2, dsti) matches Some(out) && out.0 == vv && out.1.len()
            == tb2.len() && (forall|i: int|
            0 <= i < tb2.len() && !(tb0.len() <= i < tb1.len()) ==> out.1[i] == tb2[i])) by {
            assert(m2[dsti] == m1[dsti]);
            match (pt, pv) {
                (Some(ty), Some(b)) => {
                    assert(forall|i: int|
                        poi <= i < poi + size_of(*(*ty)) ==> m2[i] == m1[i]);
                    assert(forall|i: int| m_mid.len() <= i < m1.len() ==> m2[i] == m1[i]);
                    assert(lift_spec(*(*ty), m2, tb2, poi) matches Some(pout) && pout.0 == (*(*b))@
                        && pout.1.len() == tb2.len() && (forall|i: int|
                        0 <= i < tb2.len() && !(tb_mid.len() <= i < tb1.len()) ==> pout.1[i]
                            == tb2[i]));
                    assert(lift_opt_payload_spec(pti, m2, tb2, poi) matches Some(po2) && po2.0
                        == payload_view(*pv));
                },
                (None, None) => {
                    assert(lift_opt_payload_spec(pti, m2, tb2, poi) == Some(
                        (Seq::<ValV>::empty(), tb2),
                    ));
                    assert(payload_view(*pv) =~= Seq::<ValV>::empty());
                },
                _ => {
                    assert(false);
                },
            }
        }
    }
    Ok(())
}

/// The view of a result value over its payload.
pub open spec fn res_view(rv: Result<Option<Box<Value>>, Option<Box<Value>>>) -> ValV {
    match rv {
        Ok(p) => ValV::Res(false, payload_view(p)),
        Err(p) => ValV::Res(true, payload_view(p)),
    }
}

} // verus!

verus! {

/// Lowers a variant value: the named case's discriminant of the computed
/// width, then that case's payload at the padded payload offset.
#[verifier::rlimit(100)]
fn lower_variant_at(
    t: &Ty,
    cs: &Vec<CaseTy>,
    name: &String,
    pv: &Option<Box<Value>>,
    m: &mut Memory,
    tbl: &mut ResourceTable,
    dst: usize,
) -> (r: Result<(), Error>)
    requires
        ty_ok(*t),
        (match *t {
            Ty::Variant(c) => c == *cs,
            _ => false,
        }),
        dst + size_of(*t) <= old(m)@.len(),
    ensures
        r is Ok ==> frame_ok(old(m)@, final(m)@, dst as int, size_of(*t)) && table_grew(
            old(tbl)@,
            final(tbl)@,
        ) && reads_back(
            *t,
            ValV::Variant(name@, payload_view(*pv)),
            old(m)@,
            final(m)@,
            old(tbl)@,
            final(tbl)@,
            dst as int,
        ) && has_type(ValV::Variant(name@, payload_view(*pv)), *t),
        r is Ok ==> final(m)@.len() <= old(m)@.len() + alloc_bound(
            *t,
            ValV::Variant(name@, payload_view(*pv)),
        ) && final(tbl)@.len() <= old(tbl)@.len() + handle_count(
            ValV::Variant(name@, payload_view(*pv)),
        ),
        r matches Err(e) ==> lower_err_kind(e.kind),
        r matches Err(e) && e.kind != ErrorKind::AllocFailed && e.kind != ErrorKind::EngineError
            ==> !has_type(ValV::Variant(name@, payload_view(*pv)), *t),
        r matches Err(e) && e.kind == ErrorKind::AllocFailed ==> old(m)@.len() + alloc_bound(
            *t,
            ValV::Variant(name@, payload_view(*pv)),
        ) > usize::MAX as int,
        r matches Err(e) && e.kind == ErrorKind::EngineError ==> old(tbl)@.len() + handle_count(
            ValV::Variant(name@, payload_view(*pv)),
        ) > u32::MAX as int + 1,
    decreases *pv, 9int, 0int,
{
    let ghost vv = ValV::Variant(name@, payload_view(*pv));
    let total = m.size();
    let idx = match find_case_exec(cs, name) {
        Some(i) => i,
        None => {
            return Err(Error::new(ErrorKind::UnknownDiscriminant));
        },
    };
    proof {
        lemma_find_case_found(cs@, name@, 0);
    }
    let w = match crate::layout::disc_width(cs.len() as u64) {
        Ok(w) => w,
        Err(_) => {
            proof {
                assert(false);
            }
            return Err(Error::new(ErrorKind::EngineError));
        },
    };
    let pm = match crate::layout::layout_cases(cs) {
        Ok(p) => p,
        Err(_) => {
            proof {
                crate::layout::lemma_variant_children_ok(cs@);
                assert(false);
            }
            return Err(Error::new(ErrorKind::EngineError));
        },
    };
    proof {
        crate::layout::lemma_cases_props(cs@, cs@.len() as int);
        lemma_payload_in_tagged(w as int, pm.0 as int, cases_size(cs@, cs@.len() as int), 0);
    }
    let po_off = match align_up_usize(w, pm.0) {
        Some(x) => x,
        None => {
            proof {
                assert(false);
            }
            return Err(Error::new(ErrorKind::EngineError));
        },
    };
    let ghost pti = cs@[idx as int].payload;
    proof {
        assert(has_type(vv, *t) == crate::value::payload_has_type(payload_view(*pv), pti));
    }
    match (&cs[idx].payload, pv) {
        (Some(_), None) => {
            proof {
                assert(!has_type(vv, *t));
            }
            return Err(Error::new(ErrorKind::TypeMismatch));
        },
        (None, Some(_)) => {
            proof {
                assert(payload_view(*pv).len() == 1);
                assert(!has_type(vv, *t));
            }
            return Err(Error::new(ErrorKind::TypeMismatch));
        },
        _ => {},
    }
    write_disc_at(m, dst, w, idx as u64);
    let ghost m_mid = m@;
    let ghost tb_mid = tbl@;
    proof {
        assert(m_mid.len() == old(m)@.len());
        assert(find_case(cs@, name@, 0) == idx as int);
        match (pti, pv) {
            (Some(ty), Some(b)) => {
                assert(payload_view(*pv)[0] == (*(*b))@);
                assert(alloc_bound(*t, vv) == alloc_bound(ty, (*(*b))@));
                assert(handle_sum(payload_view(*pv), 0) == 0);
                assert(handle_count(vv) == handle_count((*(*b))@));
            },
            (None, None) => {
                assert(alloc_bound(*t, vv) == 0);
                assert(handle_sum(payload_view(*pv), 0) == 0);
                assert(handle_count(vv) == 0);
            },
            _ => {
                assert(false);
            },
        }
    }
    match (&cs[idx].payload, pv) {
        (Some(ty), Some(b)) => {
            proof {
                crate::layout::lemma_variant_children_ok(cs@);
                lemma_ty_props(cs@[idx as int].payload->Some_0);
                crate::layout::lemma_case_bounds(cs@, idx as int, cs@.len() as int);
                assert(case_size(cs@[idx as int]) == size_of(cs@[idx as int].payload->Some_0));
                lemma_payload_in_tagged(
                    w as int,
                    pm.0 as int,
                    cases_size(cs@, cs@.len() as int),
                    case_size(cs@[idx as int]),
                );
                assert(decreases_to!(*pv => (*pv)->Some_0));
            }
            match lower(ty, &**b, m, tbl, dst + po_off) {
                Ok(_) => {},
                Err(e) => {
                    proof {
                        if e.kind != ErrorKind::AllocFailed && e.kind != ErrorKind::EngineError {
                            assert(!has_type((*(*b))@, *ty));
                            assert(payload_view(*pv)[0] == (*(*b))@);
                            assert(!has_type(vv, *t));
                        }
                    }
                    return Err(e);
                },
            }
        },
        _ => {},
    }
    proof {
        match (pti, pv) {
            (Some(ty), Some(b)) => {
                assert(payload_view(*pv)[0] == (*(*b))@);
                assert(crate::value::payload_has_type(payload_view(*pv), pti));
            },
            (None, None) => {
                assert(crate::value::payload_has_type(payload_view(*pv), pti));
            },
            _ => {
                assert(false);
            },
        }
        assert(has_type(vv, *t));
        let m0 = old(m)@;
        let m1 = m@;
        let tb0 = old(tbl)@;
        let tb1 = tbl@;
        let dsti = dst as int;
        let n = cs@.len() as int;
        let poi = dsti + align_up(disc_size(n), cases_align(cs@, n));
        assert(forall|i: int| 0 <= i < m_mid.len() && !(poi <= i < poi + case_size(cs@[idx as int]))
            ==> m1[i] == m_mid[i]);
        if w == 1 {
            assert(m1[dsti] == m_mid[dsti]);
        } else if w == 2 {
            assert(m1.subrange(dsti, dsti + 2) =~= m_mid.subrange(dsti, dsti + 2));
        } else {
            assert(m1.subrange(dsti, dsti + 4) =~= m_mid.subrange(dsti, dsti + 4));
        }
        assert(read_disc(m1, dsti, w as int) == read_disc(m_mid, dsti, w as int));
        assert(read_disc(m1, dsti, w as int) == Some(idx as int));
        assert forall|m2: Seq<u8>, tb2: Seq<Option<Token>>|
            (m2.len() >= m1.len() && (forall|i: int|
                dsti <= i < dsti + size_of(*t) ==> m2[i] == m1[i]) && (forall|i: int|
                m0.len() <= i < m1.len() ==> m2[i] == m1[i]) && tb2.len() >= tb1.len() && (
        forall|i: int| tb0.len() <= i < tb1.len() ==> tb2[i] == tb1[i])) implies (
        #[trigger] lift_spec(*t, m2, tb2, dsti) matches Some(out) && out.0 == vv && out.1.len()
            == tb2.len() && (forall|i: int|
            0 <= i < tb2.len() && !(tb0.len() <= i < tb1.len()) ==> out.1[i] == tb2[i])) by {
            if w == 1 {
                assert(m2[dsti] == m1[dsti]);
            } else if w == 2 {
                assert(m2.subrange(dsti, dsti + 2) =~= m1.subrange(dsti, dsti + 2));
            } else {
                assert(m2.subrange(dsti, dsti + 4) =~= m1.subrange(dsti, dsti + 4));
            }
            assert(read_disc(m2, dsti, w as int) == Some(idx as int));
            match (pti, pv) {
                (Some(ty), Some(b)) => {
                    assert(forall|i: int| poi <= i < poi + size_of(ty) ==> m2[i] == m1[i]);
                    assert(forall|i: int| m_mid.len() <= i < m1.len() ==> m2[i] == m1[i]);
                    assert(lift_spec(ty, m2, tb2, poi) matches Some(pout) && pout.0 == (*(*b))@
                        && pout.1.len() == tb2.len() && (forall|i: int|
                        0 <= i < tb2.len() && !(tb_mid.len() <= i < tb1.len()) ==> pout.1[i]
                            == tb2[i]));
                    assert(payload_view(*pv) =~= seq![(*(*b))@]);
                },
                (None, None) => {
                    assert(payload_view(*pv) =~= Seq::<ValV>::empty());
                },
                _ => {
                    assert(false);
                },
            }
        }
    }
    Ok(())
}

} // verus!

verus! {

/// Lowers a record value: each field at its canonical offset, in
/// declaration order.
#[verifier::rlimit(100)]
fn lower_record_at(
    t: &Ty,
    fs: &Vec<FieldTy>,
    vals: &Vec<Value>,
    m: &mut Memory,
    tbl: &mut ResourceTable,
    dst: usize,
) -> (r: Result<(), Error>)
    requires
        ty_ok(*t),
        (match *t {
            Ty::Record(f) => f == *fs,
            _ => false,
        }),
        dst + size_of(*t) <= old(m)@.len(),
    ensures
        r is Ok ==> frame_ok(old(m)@, final(m)@, dst as int, size_of(*t)) && table_grew(
            old(tbl)@,
            final(tbl)@,
        ) && reads_back(
            *t,
            ValV::Record(seq_view(vals@)),
            old(m)@,
            final(m)@,
            old(tbl)@,
            final(tbl)@,
            dst as int,
        ) && has_type(ValV::Record(seq_view(vals@)), *t),
        r is Ok ==> final(m)@.len() <= old(m)@.len() + alloc_sum_fields(
            fs@,
            seq_view(vals@),
            vals@.len() as int,
        ) && final(tbl)@.len() <= old(tbl)@.len() + handle_sum(seq_view(vals@), vals@.len() as int),
        r matches Err(e) ==> lower_err_kind(e.kind),
        r matches Err(e) && e.kind != ErrorKind::AllocFailed && e.kind != ErrorKind::EngineError
            ==> !has_type(ValV::Record(seq_view(vals@)), *t),
        r matches Err(e) && e.kind == ErrorKind::AllocFailed ==> old(m)@.len() + alloc_sum_fields(
            fs@,
            seq_view(vals@),
            vals@.len() as int,
        ) > usize::MAX as int,
        r matches Err(e) && e.kind == ErrorKind::EngineError ==> old(tbl)@.len() + handle_sum(
            seq_view(vals@),
            vals@.len() as int,
        ) > u32::MAX as int + 1,
    decreases *vals, 9int, 0int,
{
    let ghost vv = ValV::Record(seq_view(vals@));
    let total = m.size();
    if vals.len() != fs.len() {
        proof {
            assert(seq_view(vals@).len() == vals@.len());
            assert(*t == Ty::Record(*fs));
            assert(has_type(vv, *t) == crate::value::record_has_type(seq_view(vals@), fs@));
            assert(!has_type(vv, *t));
        }
        return Err(Error::new(ErrorKind::TypeMismatch));
    }
    let ghost m0 = old(m)@;
    let ghost tb0 = old(tbl)@;
    let ghost gfs = fs@;
    let ghost dsti = dst as int;
    let ghost n = fs@.len() as int;
    let mut end: usize = 0;
    let mut k: usize = 0;
    proof {
        crate::layout::lemma_record_children_ok(gfs);
    }
    while k < fs.len()
        invariant
            k <= gfs.len(),
            gfs == fs@,
            vv == ValV::Record(seq_view(vals@)),
            vals@.len() == gfs.len(),
            crate::layout::fields_ok(gfs),
            (match *t {
                Ty::Record(f) => f == *fs,
                _ => false,
            }),
            ty_ok(*t),
            size_of(*t) == align_up(
                fields_end(gfs, gfs.len() as int),
                fields_align(gfs, gfs.len() as int),
            ),
            m0 == old(m)@,
            tb0 == old(tbl)@,
            dsti == dst as int,
            n == gfs.len() as int,
            dsti + size_of(*t) <= m0.len(),
            end as int == fields_end(gfs, k as int),
            m@.len() >= m0.len(),
            m0.len() <= usize::MAX,
            forall|i: int|
                0 <= i < m0.len() && !(dsti <= i < dsti + fields_end(gfs, k as int)) ==> m@[i]
                    == m0[i],
            table_grew(tb0, tbl@),
            m@.len() <= m0.len() + alloc_sum_fields(gfs, seq_view(vals@), k as int),
            tbl@.len() <= tb0.len() + handle_sum(seq_view(vals@), k as int),
            forall|j: int| 0 <= j < k ==> has_type(#[trigger] seq_view(vals@)[j], gfs[j].ty),
            forall|m2: Seq<u8>, tb2: Seq<Option<Token>>|
                (m2.len() >= m@.len() && (forall|i: int|
                    dsti <= i < dsti + fields_end(gfs, k as int) ==> m2[i] == m@[i]) && (
                forall|i: int| m0.len() <= i < m@.len() ==> m2[i] == m@[i]) && tb2.len()
                    >= tbl@.len() && (forall|i: int|
                    tb0.len() <= i < tbl@.len() ==> tb2[i] == tbl@[i])) ==> (
                #[trigger] lift_record_spec(gfs, m2, tb2, dsti, k as int) matches Some(out)
                    && out.0 == seq_view(vals@).subrange(0, k as int) && out.1.len() == tb2.len()
                    && (forall|i: int|
                    0 <= i < tb2.len() && !(tb0.len() <= i < tbl@.len()) ==> out.1[i] == tb2[i])),
        decreases gfs.len() - k,
    {
        proof {
            assert(ty_ok(gfs[k as int].ty));
            lemma_ty_props(gfs[k as int].ty);
            lemma_field_in_record(gfs, k as int);
        }
        let l = match crate::layout::layout_of(&fs[k].ty) {
            Ok(l) => l,
            Err(_) => {
                proof {
                    assert(false);
                }
                return Err(Error::new(ErrorKind::EngineError));
            },
        };
        let off = match align_up_usize(end, l.align) {
            Some(x) => x,
            None => {
                proof {
                    assert(false);
                }
                return Err(Error::new(ErrorKind::EngineError));
            },
        };
        let ghost m_a = m@;
        let ghost tb_a = tbl@;
        proof {
            assert(decreases_to!(*vals => vals@));
            assert(decreases_to!(vals@ => vals@[k as int]));
            assert(decreases_to!(*vals => vals@[k as int]));
        }
        match lower(&fs[k].ty, &vals[k], m, tbl, dst + off) {
            Ok(_) => {
                proof {
                    assert(seq_view(vals@)[k as int] == vals@[k as int]@);
                    assert(alloc_sum_fields(gfs, seq_view(vals@), k as int + 1)
                        == alloc_sum_fields(gfs, seq_view(vals@), k as int) + alloc_bound(
                        gfs[k as int].ty,
                        seq_view(vals@)[k as int],
                    ));
                    assert(handle_sum(seq_view(vals@), k as int + 1) == handle_sum(
                        seq_view(vals@),
                        k as int,
                    ) + handle_count(seq_view(vals@)[k as int]));
                }
            },
            Err(e) => {
                proof {
                    assert(seq_view(vals@)[k as int] == vals@[k as int]@);
                    if e.kind == ErrorKind::AllocFailed {
                        assert(alloc_sum_fields(gfs, seq_view(vals@), k as int + 1)
                            == alloc_sum_fields(gfs, seq_view(vals@), k as int) + alloc_bound(
                            gfs[k as int].ty,
                            seq_view(vals@)[k as int],
                        ));
                        lemma_alloc_sum_fields_mono(gfs, seq_view(vals@), k as int + 1, n);
                    }
                    if e.kind == ErrorKind::EngineError {
                        assert(handle_sum(seq_view(vals@), k as int + 1) == handle_sum(
                            seq_view(vals@),
                            k as int,
                        ) + handle_count(seq_view(vals@)[k as int]));
                        lemma_handle_sum_mono(seq_view(vals@), k as int + 1, n);
                    }
                    if e.kind != ErrorKind::AllocFailed && e.kind != ErrorKind::EngineError {
                        assert(seq_view(vals@)[k as int] == vals@[k as int]@);
                        assert(seq_view(vals@).len() == vals@.len());
                        assert(*t == Ty::Record(*fs));
                        assert(has_type(vv, *t) == crate::value::record_has_type(
                            seq_view(vals@),
                            fs@,
                        ));
                        assert(!has_type(seq_view(vals@)[k as int], gfs[k as int].ty));
                        if has_type(vv, *t) {
                            assert(crate::value::record_has_type(seq_view(vals@), fs@));
                            assert(has_type(seq_view(vals@)[k as int], fs@[k as int].ty));
                            assert(gfs[k as int].ty == fs@[k as int].ty);
                            assert(false);
                        }
                        assert(!has_type(vv, *t));
                    }
                }
                return Err(e);
            },
        }
        proof {
            let m_b = m@;
            let tb_b = tbl@;
            let offi = off as int;
            let endk1 = fields_end(gfs, k as int + 1);
            assert(offi == field_offset(gfs, k as int));
            assert(endk1 == offi + size_of(gfs[k as int].ty));
            assert forall|m2: Seq<u8>, tb2: Seq<Option<Token>>|
                (m2.len() >= m_b.len() && (forall|i: int|
                    dsti <= i < dsti + endk1 ==> m2[i] == m_b[i]) && (forall|i: int|
                    m0.len() <= i < m_b.len() ==> m2[i] == m_b[i]) && tb2.len() >= tb_b.len() && (
                forall|i: int| tb0.len() <= i < tb_b.len() ==> tb2[i] == tb_b[i])) implies (
            #[trigger] lift_record_spec(gfs, m2, tb2, dsti, k as int + 1) matches Some(out)
                && out.0 == seq_view(vals@).subrange(0, k as int + 1) && out.1.len() == tb2.len()
                && (forall|i: int|
                0 <= i < tb2.len() && !(tb0.len() <= i < tb_b.len()) ==> out.1[i] == tb2[i])) by {
                assert(forall|i: int|
                    dsti <= i < dsti + fields_end(gfs, k as int) ==> m2[i] == m_a[i]);
                assert(forall|i: int| m0.len() <= i < m_a.len() ==> m2[i] == m_a[i]);
                assert(forall|i: int| tb0.len() <= i < tb_a.len() ==> tb2[i] == tb_a[i]);
                assert(lift_record_spec(gfs, m2, tb2, dsti, k as int) matches Some(pre)
                    && pre.0 == seq_view(vals@).subrange(0, k as int) && pre.1.len() == tb2.len()
                    && (forall|i: int|
                    0 <= i < tb2.len() && !(tb0.len() <= i < tb_a.len()) ==> pre.1[i] == tb2[i]));
                let pre = lift_record_spec(gfs, m2, tb2, dsti, k as int)->Some_0;
                let tb1p = pre.1;
                assert(tb1p.len() >= tb_b.len());
                assert(forall|i: int| tb_a.len() <= i < tb_b.len() ==> tb1p[i] == tb2[i]);
                assert(forall|i: int| tb_a.len() <= i < tb_b.len() ==> tb1p[i] == tb_b[i]);
                assert(forall|i: int|
                    dsti + offi <= i < dsti + offi + size_of(gfs[k as int].ty) ==> m2[i]
                        == m_b[i]);
                assert(forall|i: int| m_a.len() <= i < m_b.len() ==> m2[i] == m_b[i]);
                assert(lift_spec(gfs[k as int].ty, m2, tb1p, dsti + offi) matches Some(fout)
                    && fout.0 == vals@[k as int]@ && fout.1.len() == tb1p.len() && (forall|i: int|
                    0 <= i < tb1p.len() && !(tb_a.len() <= i < tb_b.len()) ==> fout.1[i]
                        == tb1p[i]));
                assert(seq_view(vals@)[k as int] == vals@[k as int]@);
                assert(seq_view(vals@).subrange(0, k as int + 1) =~= seq_view(vals@).subrange(
                    0,
                    k as int,
                ).push(vals@[k as int]@));
            }
        }
        end = off + l.size;
        k = k + 1;
    }
    proof {
        assert(fields_end(gfs, n) <= size_of(*t)) by {
            crate::layout::lemma_fields_props(gfs, n);
            crate::layout::lemma_align_up(fields_end(gfs, n), fields_align(gfs, n));
        }
        assert(seq_view(vals@).subrange(0, n) =~= seq_view(vals@));
        assert(seq_view(vals@).len() == vals@.len());
        assert(*t == Ty::Record(*fs));
        assert(has_type(vv, *t) == crate::value::record_has_type(seq_view(vals@), fs@));
        assert(has_type(vv, *t));
        let m1 = m@;
        let tb1 = tbl@;
        assert forall|m2: Seq<u8>, tb2: Seq<Option<Token>>|
            (m2.len() >= m1.len() && (forall|i: int|
                dsti <= i < dsti + size_of(*t) ==> m2[i] == m1[i]) && (forall|i: int|
                m0.len() <= i < m1.len() ==> m2[i] == m1[i]) && tb2.len() >= tb1.len() && (
        forall|i: int| tb0.len() <= i < tb1.len() ==> tb2[i] == tb1[i])) implies (
        #[trigger] lift_spec(*t, m2, tb2, dsti) matches Some(out) && out.0 == vv && out.1.len()
            == tb2.len() && (forall|i: int|
            0 <= i < tb2.len() && !(tb0.len() <= i < tb1.len()) ==> out.1[i] == tb2[i])) by {
            assert(forall|i: int|
                dsti <= i < dsti + fields_end(gfs, n) ==> m2[i] == m1[i]);
            assert(lift_record_spec(gfs, m2, tb2, dsti, n) matches Some(out) && out.0 == seq_view(
                vals@,
            ).subrange(0, n) && out.1.len() == tb2.len() && (forall|i: int|
                0 <= i < tb2.len() && !(tb0.len() <= i < tb1.len()) ==> out.1[i] == tb2[i]));
        }
    }
    Ok(())
}


/// Lowers a tuple value: each element at its canonical offset, in order.
#[verifier::rlimit(100)]
fn lower_tuple_at(
    t: &Ty,
    ts: &Vec<Ty>,
    vals: &Vec<Value>,
    m: &mut Memory,
    tbl: &mut ResourceTable,
    dst: usize,
) -> (r: Result<(), Error>)
    requires
        ty_ok(*t),
        (match *t {
            Ty::Tuple(f) => f == *ts,
            _ => false,
        }),
        dst + size_of(*t) <= old(m)@.len(),
    ensures
        r is Ok ==> frame_ok(old(m)@, final(m)@, dst as int, size_of(*t)) && table_grew(
            old(tbl)@,
            final(tbl)@,
        ) && reads_back(
            *t,
            ValV::Tuple(seq_view(vals@)),
            old(m)@,
            final(m)@,
            old(tbl)@,
            final(tbl)@,
            dst as int,
        ) && has_type(ValV::Tuple(seq_view(vals@)), *t),
        r is Ok ==> final(m)@.len() <= old(m)@.len() + alloc_sum_elems(
            ts@,
            seq_view(vals@),
            vals@.len() as int,
        ) && final(tbl)@.len() <= old(tbl)@.len() + handle_sum(seq_view(vals@), vals@.len() as int),
        r matches Err(e) ==> lower_err_kind(e.kind),
        r matches Err(e) && e.kind != ErrorKind::AllocFailed && e.kind != ErrorKind::EngineError
            ==> !has_type(ValV::Tuple(seq_view(vals@)), *t),
        r matches Err(e) && e.kind == ErrorKind::AllocFailed ==> old(m)@.len() + alloc_sum_elems(
            ts@,
            seq_view(vals@),
            vals@.len() as int,
        ) > usize::MAX as int,
        r matches Err(e) && e.kind == ErrorKind::EngineError ==> old(tbl)@.len() + handle_sum(
            seq_view(vals@),
            vals@.len() as int,
        ) > u32::MAX as int + 1,
    decreases *vals, 9int, 0int,
{
    let ghost vv = ValV::Tuple(seq_view(vals@));
    let total = m.size();
    if vals.len() != ts.len() {
        proof {
            assert(seq_view(vals@).len() == vals@.len());
            assert(*t == Ty::Tuple(*ts));
            assert(has_type(vv, *t) == crate::value::tuple_has_type(seq_view(vals@), ts@));
            assert(!has_type(vv, *t));
        }
        return Err(Error::new(ErrorKind::TypeMismatch));
    }
    let ghost m0 = old(m)@;
    let ghost tb0 = old(tbl)@;
    let ghost gts = ts@;
    let ghost dsti = dst as int;
    let ghost n = ts@.len() as int;
    let mut end: usize = 0;
    let mut k: usize = 0;
    proof {
        crate::layout::lemma_tuple_children_ok(gts);
    }
    while k < ts.len()
        invariant
            k <= gts.len(),
            gts == ts@,
            vv == ValV::Tuple(seq_view(vals@)),
            vals@.len() == gts.len(),
            crate::layout::elems_ok(gts),
            (match *t {
                Ty::Tuple(f) => f == *ts,
                _ => false,
            }),
            ty_ok(*t),
            size_of(*t) == align_up(
                elems_end(gts, gts.len() as int),
                elems_align(gts, gts.len() as int),
            ),
            m0 == old(m)@,
            tb0 == old(tbl)@,
            dsti == dst as int,
            n == gts.len() as int,
            dsti + size_of(*t) <= m0.len(),
            end as int == elems_end(gts, k as int),
            m@.len() >= m0.len(),
            m0.len() <= usize::MAX,
            forall|i: int|
                0 <= i < m0.len() && !(dsti <= i < dsti + elems_end(gts, k as int)) ==> m@[i]
                    == m0[i],
            table_grew(tb0, tbl@),
            m@.len() <= m0.len() + alloc_sum_elems(gts, seq_view(vals@), k as int),
            tbl@.len() <= tb0.len() + handle_sum(seq_view(vals@), k as int),
            forall|j: int| 0 <= j < k ==> has_type(#[trigger] seq_view(vals@)[j], gts[j]),
            forall|m2: Seq<u8>, tb2: Seq<Option<Token>>|
                (m2.len() >= m@.len() && (forall|i: int|
                    dsti <= i < dsti + elems_end(gts, k as int) ==> m2[i] == m@[i]) && (
                forall|i: int| m0.len() <= i < m@.len() ==> m2[i] == m@[i]) && tb2.len()
                    >= tbl@.len() && (forall|i: int|
                    tb0.len() <= i < tbl@.len() ==> tb2[i] == tbl@[i])) ==> (
                #[trigger] lift_tuple_spec(gts, m2, tb2, dsti, k as int) matches Some(out)
                    && out.0 == seq_view(vals@).subrange(0, k as int) && out.1.len() == tb2.len()
                    && (forall|i: int|
                    0 <= i < tb2.len() && !(tb0.len() <= i < tbl@.len()) ==> out.1[i] == tb2[i])),
        decreases gts.len() - k,
    {
        proof {
            assert(ty_ok(gts[k as int]));
            lemma_ty_props(gts[k as int]);
            lemma_elem_in_tuple(gts, k as int);
        }
        let l = match crate::layout::layout_of(&ts[k]) {
            Ok(l) => l,
            Err(_) => {
                proof {
                    assert(false);
                }
                return Err(Error::new(ErrorKind::EngineError));
            },
        };
        let off = match align_up_usize(end, l.align) {
            Some(x) => x,
            None => {
                proof {
                    assert(false);
                }
                return Err(Error::new(ErrorKind::EngineError));
            },
        };
        let ghost m_a = m@;
        let ghost tb_a = tbl@;
        proof {
            assert(decreases_to!(*vals => vals@));
            assert(decreases_to!(vals@ => vals@[k as int]));
            assert(decreases_to!(*vals => vals@[k as int]));
        }
        match lower(&ts[k], &vals[k], m, tbl, dst + off) {
            Ok(_) => {
                proof {
                    assert(seq_view(vals@)[k as int] == vals@[k as int]@);
                    assert(alloc_sum_elems(gts, seq_view(vals@), k as int + 1) == alloc_sum_elems(
                        gts,
                        seq_view(vals@),
                        k as int,
                    ) + alloc_bound(gts[k as int], seq_view(vals@)[k as int]));
                    assert(handle_sum(seq_view(vals@), k as int + 1) == handle_sum(
                        seq_view(vals@),
                        k as int,
                    ) + handle_count(seq_view(vals@)[k as int]));
                }
            },
            Err(e) => {
                proof {
                    assert(seq_view(vals@)[k as int] == vals@[k as int]@);
                    if e.kind == ErrorKind::AllocFailed {
                        assert(alloc_sum_elems(gts, seq_view(vals@), k as int + 1)
                            == alloc_sum_elems(gts, seq_view(vals@), k as int) + alloc_bound(
                            gts[k as int],
                            seq_view(vals@)[k as int],
                        ));
                        lemma_alloc_sum_elems_mono(gts, seq_view(vals@), k as int + 1, n);
                    }
                    if e.kind == ErrorKind::EngineError {
                        assert(handle_sum(seq_view(vals@), k as int + 1) == handle_sum(
                            seq_view(vals@),
                            k as int,
                        ) + handle_count(seq_view(vals@)[k as int]));
                        lemma_handle_sum_mono(seq_view(vals@), k as int + 1, n);
                    }
                    if e.kind != ErrorKind::AllocFailed && e.kind != ErrorKind::EngineError {
                        assert(seq_view(vals@)[k as int] == vals@[k as int]@);
                        assert(seq_view(vals@).len() == vals@.len());
                        assert(*t == Ty::Tuple(*ts));
                        assert(has_type(vv, *t) == crate::value::tuple_has_type(
                            seq_view(vals@),
                            ts@,
                        ));
                        assert(!has_type(seq_view(vals@)[k as int], gts[k as int]));
                        if has_type(vv, *t) {
                            assert(crate::value::tuple_has_type(seq_view(vals@), ts@));
                            assert(has_type(seq_view(vals@)[k as int], ts@[k as int]));
                            assert(gts[k as int] == ts@[k as int]);
                            assert(false);
                        }
                        assert(!has_type(vv, *t));
                    }
                }
                return Err(e);
            },
        }
        proof {
            let m_b = m@;
            let tb_b = tbl@;
            let offi = off as int;
            let endk1 = elems_end(gts, k as int + 1);
            assert(offi == elem_offset(gts, k as int));
            assert(endk1 == offi + size_of(gts[k as int]));
            assert forall|m2: Seq<u8>, tb2: Seq<Option<Token>>|
                (m2.len() >= m_b.len() && (forall|i: int|
                    dsti <= i < dsti + endk1 ==> m2[i] == m_b[i]) && (forall|i: int|
                    m0.len() <= i < m_b.len() ==> m2[i] == m_b[i]) && tb2.len() >= tb_b.len() && (
                forall|i: int| tb0.len() <= i < tb_b.len() ==> tb2[i] == tb_b[i])) implies (
            #[trigger] lift_tuple_spec(gts, m2, tb2, dsti, k as int + 1) matches Some(out)
                && out.0 == seq_view(vals@).subrange(0, k as int + 1) && out.1.len() == tb2.len()
                && (forall|i: int|
                0 <= i < tb2.len() && !(tb0.len() <= i < tb_b.len()) ==> out.1[i] == tb2[i])) by {
                assert(forall|i: int|
                    dsti <= i < dsti + elems_end(gts, k as int) ==> m2[i] == m_a[i]);
                assert(forall|i: int| m0.len() <= i < m_a.len() ==> m2[i] == m_a[i]);
                assert(forall|i: int| tb0.len() <= i < tb_a.len() ==> tb2[i] == tb_a[i]);
                assert(lift_tuple_spec(gts, m2, tb2, dsti, k as int) matches Some(pre)
                    && pre.0 == seq_view(vals@).subrange(0, k as int) && pre.1.len() == tb2.len()
                    && (forall|i: int|
                    0 <= i < tb2.len() && !(tb0.len() <= i < tb_a.len()) ==> pre.1[i] == tb2[i]));
                let pre = lift_tuple_spec(gts, m2, tb2, dsti, k as int)->Some_0;
                let tb1p = pre.1;
                assert(tb1p.len() >= tb_b.len());
                assert(forall|i: int| tb_a.len() <= i < tb_b.len() ==> tb1p[i] == tb2[i]);
                assert(forall|i: int| tb_a.len() <= i < tb_b.len() ==> tb1p[i] == tb_b[i]);
                assert(forall|i: int|
                    dsti + offi <= i < dsti + offi + size_of(gts[k as int]) ==> m2[i]
                        == m_b[i]);
                assert(forall|i: int| m_a.len() <= i < m_b.len() ==> m2[i] == m_b[i]);
                assert(lift_spec(gts[k as int], m2, tb1p, dsti + offi) matches Some(fout)
                    && fout.0 == vals@[k as int]@ && fout.1.len() == tb1p.len() && (forall|i: int|
                    0 <= i < tb1p.len() && !(tb_a.len() <= i < tb_b.len()) ==> fout.1[i]
                        == tb1p[i]));
                assert(seq_view(vals@)[k as int] == vals@[k as int]@);
                assert(seq_view(vals@).subrange(0, k as int + 1) =~= seq_view(vals@).subrange(
                    0,
                    k as int,
                ).push(vals@[k as int]@));
            }
        }
        end = off + l.size;
        k = k + 1;
    }
    proof {
        assert(elems_end(gts, n) <= size_of(*t)) by {
            crate::layout::lemma_elems_props(gts, n);
            crate::layout::lemma_align_up(elems_end(gts, n), elems_align(gts, n));
        }
        assert(seq_view(vals@).subrange(0, n) =~= seq_view(vals@));
        assert(seq_view(vals@).len() == vals@.len());
        assert(*t == Ty::Tuple(*ts));
        assert(has_type(vv, *t) == crate::value::tuple_has_type(seq_view(vals@), ts@));
        assert(has_type(vv, *t));
        let m1 = m@;
        let tb1 = tbl@;
        assert forall|m2: Seq<u8>, tb2: Seq<Option<Token>>|
            (m2.len() >= m1.len() && (forall|i: int|
                dsti <= i < dsti + size_of(*t) ==> m2[i] == m1[i]) && (forall|i: int|
                m0.len() <= i < m1.len() ==> m2[i] == m1[i]) && tb2.len() >= tb1.len() && (
        forall|i: int| tb0.len() <= i < tb1.len() ==> tb2[i] == tb1[i])) implies (
        #[trigger] lift_spec(*t, m2, tb2, dsti) matches Some(out) && out.0 == vv && out.1.len()
            == tb2.len() && (forall|i: int|
            0 <= i < tb2.len() && !(tb0.len() <= i < tb1.len()) ==> out.1[i] == tb2[i])) by {
            assert(forall|i: int|
                dsti <= i < dsti + elems_end(gts, n) ==> m2[i] == m1[i]);
            assert(lift_tuple_spec(gts, m2, tb2, dsti, n) matches Some(out) && out.0 == seq_view(
                vals@,
            ).subrange(0, n) && out.1.len() == tb2.len() && (forall|i: int|
                0 <= i < tb2.len() && !(tb0.len() <= i < tb1.len()) ==> out.1[i] == tb2[i]));
        }
    }
    Ok(())
}


} // verus!

verus! {

/// Lowers a list value: an empty one becomes the pair `(0, 0)`; otherwise
/// a fresh element-aligned block of `len * elem_size` zeroed bytes receives
/// the elements in index order, and the pair points at it.
#[verifier::rlimit(100)]
fn lower_list_at(
    t: &Ty,
    elem: &Ty,
    items: &Vec<Value>,
    m: &mut Memory,
    tbl: &mut ResourceTable,
    dst: usize,
) -> (r: Result<(), Error>)
    requires
        ty_ok(*t),
        (match *t {
            Ty::List(b) => *b == *elem,
            _ => false,
        }),
        dst + size_of(*t) <= old(m)@.len(),
    ensures
        r is Ok ==> frame_ok(old(m)@, final(m)@, dst as int, size_of(*t)) && table_grew(
            old(tbl)@,
            final(tbl)@,
        ) && reads_back(
            *t,
            ValV::List(seq_view(items@)),
            old(m)@,
            final(m)@,
            old(tbl)@,
            final(tbl)@,
            dst as int,
        ) && has_type(ValV::List(seq_view(items@)), *t),
        r is Ok ==> final(m)@.len() <= old(m)@.len() + 7 + items@.len() * size_of(*elem)
            + alloc_sum_list(*elem, seq_view(items@), items@.len() as int)
            && final(tbl)@.len() <= old(tbl)@.len() + handle_sum(
            seq_view(items@),
            items@.len() as int,
        ),
        r is Ok ==> pair_canon(
            final(m)@,
            dst as int,
            items@.len() as int,
            crate::layout::align_of(*elem),
            old(m)@.len() as int,
        ),
        r matches Err(e) ==> lower_err_kind(e.kind),
        r matches Err(e) && e.kind != ErrorKind::AllocFailed && e.kind != ErrorKind::EngineError
            ==> !has_type(ValV::List(seq_view(items@)), *t),
        r matches Err(e) && e.kind == ErrorKind::AllocFailed ==> old(m)@.len() + 7 + items@.len()
            * size_of(*elem) + alloc_sum_list(*elem, seq_view(items@), items@.len() as int)
            > usize::MAX as int,
        r matches Err(e) && e.kind == ErrorKind::EngineError ==> old(tbl)@.len() + handle_sum(
            seq_view(items@),
            items@.len() as int,
        ) > u32::MAX as int + 1,
    decreases *items, 9int, 0int,
{
    let ghost vv = ValV::List(seq_view(items@));
    let total = m.size();
    let ghost m0 = old(m)@;
    let ghost tb0 = old(tbl)@;
    let ghost dsti = dst as int;
    proof {
        lemma_auto_spec_u64_to_from_le_bytes();
        assert(vstd::bytes::spec_u64_to_le_bytes(0u64).len() == 8);
    }
    let n = items.len();
    if n == 0 {
        m.write_u64(dst, 0);
        m.write_u64(dst + 8, 0);
        proof {
            let m1 = m@;
            assert(seq_view(items@) =~= Seq::<ValV>::empty());
            assert(has_type(vv, *t) == crate::value::list_has_type(seq_view(items@), *elem));
            assert(has_type(vv, *t));
            assert forall|m2: Seq<u8>, tb2: Seq<Option<Token>>|
                (m2.len() >= m1.len() && (forall|i: int| dsti <= i < dsti + 16 ==> m2[i] == m1[i])
                    && (forall|i: int| m0.len() <= i < m1.len() ==> m2[i] == m1[i]) && tb2.len()
                    >= tbl@.len() && (forall|i: int|
                    tb0.len() <= i < tbl@.len() ==> tb2[i] == tbl@[i])) implies (
            #[trigger] lift_spec(*t, m2, tb2, dsti) matches Some(out) && out.0 == vv && out.1.len()
                == tb2.len() && (forall|i: int|
                0 <= i < tb2.len() && !(tb0.len() <= i < tbl@.len()) ==> out.1[i] == tb2[i])) by {
                assert(m2.subrange(dsti, dsti + 8) =~= m1.subrange(dsti, dsti + 8));
                assert(m2.subrange(dsti + 8, dsti + 16) =~= m1.subrange(dsti + 8, dsti + 16));
            }
            assert(m1.subrange(dsti, dsti + 8) =~= vstd::bytes::spec_u64_to_le_bytes(0u64));
            assert(m1.subrange(dsti + 8, dsti + 16) =~= vstd::bytes::spec_u64_to_le_bytes(0u64));
            assert(pair_canon(
                m1,
                dsti,
                items@.len() as int,
                crate::layout::align_of(*elem),
                m0.len() as int,
            ));
            assert(alloc_sum_list(*elem, seq_view(items@), 0) == 0);
        }
        return Ok(());
    }
    let l = match crate::layout::layout_of(elem) {
        Ok(l) => l,
        Err(_) => {
            proof {
                assert(false);
            }
            return Err(Error::new(ErrorKind::EngineError));
        },
    };
    proof {
        lemma_ty_props(*elem);
        assert(size_of(*elem) >= 1);
    }
    let es = l.size;
    let block = match n.checked_mul(es) {
        Some(b) => b,
        None => {
            proof {
                lemma_alloc_sum_list_nonneg(*elem, seq_view(items@), items@.len() as int);
            }
            return Err(Error::new(ErrorKind::AllocFailed));
        },
    };
    proof {
        crate::layout::lemma_align_up(old(m)@.len() as int, l.align as int);
        lemma_alloc_sum_list_nonneg(*elem, seq_view(items@), items@.len() as int);
    }
    let addr = match m.allocate(block, l.align) {
        Ok(a) => a,
        Err(e) => {
            return Err(e);
        },
    };
    let ghost m_alloc = m@;
    let ghost addri = addr as int;
    let ghost ni = n as int;
    let ghost esi = es as int;
    let mut k: usize = 0;
    while k < n
        invariant
            k <= n,
            n == items@.len(),
            ni == n as int,
            esi == es as int,
            addri == addr as int,
            vv == ValV::List(seq_view(items@)),
            ty_ok(*elem),
            esi == size_of(*elem),
            (match *t {
                Ty::List(b) => *b == *elem,
                _ => false,
            }),
            ty_ok(*t),
            size_of(*t) == 16,
            m0 == old(m)@,
            tb0 == old(tbl)@,
            dsti == dst as int,
            dsti + 16 <= m0.len(),
            m0.len() <= usize::MAX,
            m0.len() <= addri,
            addri + ni * esi <= m@.len(),
            addri + ni * esi <= usize::MAX,
            m@.len() >= m0.len(),
            forall|i: int| 0 <= i < m0.len() ==> m@[i] == m0[i],
            table_grew(tb0, tbl@),
            m@.len() <= m0.len() + 7 + ni * esi + alloc_sum_list(*elem, seq_view(items@), k as int),
            tbl@.len() <= tb0.len() + handle_sum(seq_view(items@), k as int),
            forall|j: int| 0 <= j < k ==> has_type(#[trigger] seq_view(items@)[j], *elem),
            forall|m2: Seq<u8>, tb2: Seq<Option<Token>>|
                (m2.len() >= m@.len() && (forall|i: int|
                    m0.len() <= i < m@.len() && !(addri + k as int * esi <= i < addri + ni * esi)
                        ==> m2[i] == m@[i]) && tb2.len() >= tbl@.len() && (forall|i: int|
                    tb0.len() <= i < tbl@.len() ==> tb2[i] == tbl@[i])) ==> (
                #[trigger] lift_list_spec(*elem, m2, tb2, addri, esi, k as int) matches Some(out)
                    && out.0 == seq_view(items@).subrange(0, k as int) && out.1.len() == tb2.len()
                    && (forall|i: int|
                    0 <= i < tb2.len() && !(tb0.len() <= i < tbl@.len()) ==> out.1[i] == tb2[i])),
        decreases n - k,
    {
        proof {
            vstd::arithmetic::mul::lemma_mul_inequality(k as int + 1, ni, esi);
            assert((k as int) * esi + esi == (k as int + 1) * esi) by (nonlinear_arith);
            vstd::arithmetic::mul::lemma_mul_nonnegative(k as int, esi);
            vstd::arithmetic::mul::lemma_mul_inequality(k as int, ni, esi);
            assert(decreases_to!(*items => items@));
            assert(decreases_to!(items@ => items@[k as int]));
            assert(decreases_to!(*items => items@[k as int]));
        }
        let eaddr = addr + k * es;
        let ghost m_a = m@;
        let ghost tb_a = tbl@;
        match lower(elem, &items[k], m, tbl, eaddr) {
            Ok(_) => {
                proof {
                    assert(seq_view(items@)[k as int] == items@[k as int]@);
                    assert(alloc_sum_list(*elem, seq_view(items@), k as int + 1) == alloc_sum_list(
                        *elem,
                        seq_view(items@),
                        k as int,
                    ) + alloc_bound(*elem, seq_view(items@)[k as int]));
                    assert(handle_sum(seq_view(items@), k as int + 1) == handle_sum(
                        seq_view(items@),
                        k as int,
                    ) + handle_count(seq_view(items@)[k as int]));
                }
            },
            Err(e) => {
                proof {
                    assert(seq_view(items@)[k as int] == items@[k as int]@);
                    if e.kind == ErrorKind::AllocFailed {
                        assert(alloc_sum_list(*elem, seq_view(items@), k as int + 1)
                            == alloc_sum_list(*elem, seq_view(items@), k as int) + alloc_bound(
                            *elem,
                            seq_view(items@)[k as int],
                        ));
                        lemma_alloc_sum_list_mono(*elem, seq_view(items@), k as int + 1, ni);
                    }
                    if e.kind == ErrorKind::EngineError {
                        assert(handle_sum(seq_view(items@), k as int + 1) == handle_sum(
                            seq_view(items@),
                            k as int,
                        ) + handle_count(seq_view(items@)[k as int]));
                        lemma_handle_sum_mono(seq_view(items@), k as int + 1, ni);
                    }
                    if e.kind != ErrorKind::AllocFailed && e.kind != ErrorKind::EngineError {
                        assert(seq_view(items@)[k as int] == items@[k as int]@);
                        assert(*t == Ty::List(Box::new(*elem)) || true);
                        assert(!has_type(seq_view(items@)[k as int], *elem));
                        assert(has_type(vv, *t) == crate::value::list_has_type(
                            seq_view(items@),
                            *elem,
                        ));
                        if has_type(vv, *t) {
                            assert(crate::value::list_has_type(seq_view(items@), *elem));
                            assert(has_type(seq_view(items@)[k as int], *elem));
                            assert(false);
                        }
                        assert(!has_type(vv, *t));
                    }
                }
                return Err(e);
            },
        }
        proof {
            let m_b = m@;
            let tb_b = tbl@;
            let ei = addri + k as int * esi;
            assert forall|m2: Seq<u8>, tb2: Seq<Option<Token>>|
                (m2.len() >= m_b.len() && (forall|i: int|
                    m0.len() <= i < m_b.len() && !(addri + (k as int + 1) * esi <= i < addri + ni
                        * esi) ==> m2[i] == m_b[i]) && tb2.len() >= tb_b.len() && (forall|i: int|
                    tb0.len() <= i < tb_b.len() ==> tb2[i] == tb_b[i])) implies (
            #[trigger] lift_list_spec(*elem, m2, tb2, addri, esi, k as int + 1) matches Some(out)
                && out.0 == seq_view(items@).subrange(0, k as int + 1) && out.1.len() == tb2.len()
                && (forall|i: int|
                0 <= i < tb2.len() && !(tb0.len() <= i < tb_b.len()) ==> out.1[i] == tb2[i])) by {
                assert(forall|i: int|
                    m0.len() <= i < m_a.len() && !(addri + k as int * esi <= i < addri + ni * esi)
                        ==> m2[i] == m_a[i]);
                assert(forall|i: int| tb0.len() <= i < tb_a.len() ==> tb2[i] == tb_a[i]);
                assert(lift_list_spec(*elem, m2, tb2, addri, esi, k as int) matches Some(pre)
                    && pre.0 == seq_view(items@).subrange(0, k as int) && pre.1.len() == tb2.len()
                    && (forall|i: int|
                    0 <= i < tb2.len() && !(tb0.len() <= i < tb_a.len()) ==> pre.1[i] == tb2[i]));
                let pre = lift_list_spec(*elem, m2, tb2, addri, esi, k as int)->Some_0;
                let tb1p = pre.1;
                assert(tb1p.len() >= tb_b.len());
                assert(forall|i: int| tb_a.len() <= i < tb_b.len() ==> tb1p[i] == tb_b[i]);
                assert(forall|i: int| ei <= i < ei + esi ==> m2[i] == m_b[i]);
                assert(forall|i: int| m_a.len() <= i < m_b.len() ==> m2[i] == m_b[i]);
                assert(lift_spec(*elem, m2, tb1p, ei) matches Some(fout) && fout.0 == items@[k as int]@
                    && fout.1.len() == tb1p.len() && (forall|i: int|
                    0 <= i < tb1p.len() && !(tb_a.len() <= i < tb_b.len()) ==> fout.1[i]
                        == tb1p[i]));
                assert(seq_view(items@)[k as int] == items@[k as int]@);
                assert(seq_view(items@).subrange(0, k as int + 1) =~= seq_view(items@).subrange(
                    0,
                    k as int,
                ).push(items@[k as int]@));
            }
        }
        k = k + 1;
    }
    let ghost m_loop = m@;
    let ghost tb1 = tbl@;
    m.write_u64(dst, addr as u64);
    m.write_u64(dst + 8, n as u64);
    proof {
        assert(vstd::bytes::spec_u64_to_le_bytes(addr as u64).len() == 8);
        assert(vstd::bytes::spec_u64_to_le_bytes(n as u64).len() == 8);
        vstd::arithmetic::mul::lemma_mul_inequality(1, esi, ni);
        assert(ni * 1 == ni && ni * esi == esi * ni) by (nonlinear_arith);
        assert(ni <= ni * esi) by (nonlinear_arith)
            requires
                esi >= 1,
                ni >= 0,
        ;
        let m1 = m@;
        assert(seq_view(items@).subrange(0, ni) =~= seq_view(items@));
        assert(seq_view(items@).len() == items@.len());
        assert(has_type(vv, *t) == crate::value::list_has_type(seq_view(items@), *elem));
        assert(has_type(vv, *t));
        assert(m1.subrange(dsti, dsti + 8) =~= vstd::bytes::spec_u64_to_le_bytes(addr as u64));
        assert forall|m2: Seq<u8>, tb2: Seq<Option<Token>>|
            (m2.len() >= m1.len() && (forall|i: int| dsti <= i < dsti + 16 ==> m2[i] == m1[i]) && (
            forall|i: int| m0.len() <= i < m1.len() ==> m2[i] == m1[i]) && tb2.len() >= tb1.len()
                && (forall|i: int| tb0.len() <= i < tb1.len() ==> tb2[i] == tb1[i])) implies (
        #[trigger] lift_spec(*t, m2, tb2, dsti) matches Some(out) && out.0 == vv && out.1.len()
            == tb2.len() && (forall|i: int|
            0 <= i < tb2.len() && !(tb0.len() <= i < tb1.len()) ==> out.1[i] == tb2[i])) by {
            assert(m2.subrange(dsti, dsti + 8) =~= m1.subrange(dsti, dsti + 8));
            assert(m2.subrange(dsti + 8, dsti + 16) =~= m1.subrange(dsti + 8, dsti + 16));
            assert(forall|i: int|
                m0.len() <= i < m_loop.len() && !(addri + ni * esi <= i < addri + ni * esi)
                    ==> m2[i] == m_loop[i]);
            assert(lift_list_spec(*elem, m2, tb2, addri, esi, ni) matches Some(out) && out.0
                == seq_view(items@).subrange(0, ni) && out.1.len() == tb2.len() && (forall|i: int|
                0 <= i < tb2.len() && !(tb0.len() <= i < tb1.len()) ==> out.1[i] == tb2[i]));
        }
        assert(m1.subrange(dsti + 8, dsti + 16) =~= vstd::bytes::spec_u64_to_le_bytes(n as u64));
        assert(pair_canon(
            m1,
            dsti,
            items@.len() as int,
            crate::layout::align_of(*elem),
            m0.len() as int,
        ));
    }
    Ok(())
}

} // verus!

verus! {

/// Address `i` lies inside one of the result destination windows.
pub open spec fn in_result_window(tys: Seq<Ty>, cells: Seq<u64>, pos: int, i: int) -> bool {
    exists|k: int|
        0 <= k < tys.len() && cells[pos + k] <= i < cells[pos + k] + size_of(#[trigger] tys[k])
}

/// The result destination windows are pairwise disjoint.
pub open spec fn results_disjoint(tys: Seq<Ty>, cells: Seq<u64>, pos: int) -> bool {
    forall|j: int, k: int|
        0 <= j < tys.len() && 0 <= k < tys.len() && j != k ==> (cells[pos + j] + size_of(
            #[trigger] tys[j],
        ) <= cells[pos + k] || cells[pos + k] + size_of(#[trigger] tys[k]) <= cells[pos + j])
}

/// Lowers each result value through its out-pointer cell: cell `pos + k`
/// holds the caller-allocated destination address for result `k`.  With no
/// results this is a no-op.  The caller guarantees each destination holds
/// `size_of` bytes inside the memory.
///
/// On success no caller byte outside the destination windows changes, and
/// when the windows are pairwise disjoint every result value reads back
/// from the final memory at its own out-pointer.  Success is owed whenever
/// the values fit their schemas and the address space and representation
/// space can take the auxiliary allocations.
#[verifier::rlimit(100)]
pub fn lower_results(
    vals: &Vec<Value>,
    tys: &Vec<Ty>,
    cells: &Vec<u64>,
    pos: usize,
    m: &mut Memory,
    tbl: &mut ResourceTable,
) -> (r: Result<(), Error>)
    requires
        crate::layout::elems_ok(tys@),
        pos + tys@.len() <= cells@.len(),
        forall|k: int|
            0 <= k < tys@.len() ==> (#[trigger] cells@[pos + k]) as int + size_of(tys@[k])
                <= old(m)@.len(),
    ensures
        r is Ok ==> final(m)@.len() >= old(m)@.len() && table_grew(old(tbl)@, final(tbl)@),
        r is Ok ==> vals@.len() == tys@.len() && (forall|k: int|
            0 <= k < tys@.len() ==> has_type(#[trigger] seq_view(vals@)[k], tys@[k])),
        r is Ok ==> forall|i: int|
            0 <= i < old(m)@.len() && !in_result_window(tys@, cells@, pos as int, i)
                ==> final(m)@[i] == old(m)@[i],
        r is Ok && results_disjoint(tys@, cells@, pos as int) ==> forall|k: int|
            0 <= k < tys@.len() ==> #[trigger] reads_back(
                tys@[k],
                seq_view(vals@)[k],
                old(m)@,
                final(m)@,
                old(tbl)@,
                final(tbl)@,
                cells@[pos + k] as int,
            ),
        r is Ok && results_disjoint(tys@, cells@, pos as int) ==> forall|k: int|
            0 <= k < tys@.len() ==> ((#[trigger] lift_spec(
                tys@[k],
                final(m)@,
                final(tbl)@,
                cells@[pos + k] as int,
            )) matches Some(out) && out.0 == seq_view(vals@)[k]),
        r matches Err(e) ==> lower_err_kind(e.kind),
        vals@.len() == tys@.len() && (forall|k: int|
            0 <= k < tys@.len() ==> has_type(#[trigger] seq_view(vals@)[k], tys@[k]))
            && old(m)@.len() + alloc_sum_elems(tys@, seq_view(vals@), tys@.len() as int) <= usize::MAX as int
            && old(tbl)@.len() + handle_sum(seq_view(vals@), vals@.len() as int) <= u32::MAX as int
            + 1 ==> r is Ok,
{
    let total = m.size();
    let ctotal = cells.len();
    if vals.len() != tys.len() {
        return Err(Error::new(ErrorKind::TypeMismatch));
    }
    let ghost m0 = old(m)@;
    let ghost tb0 = old(tbl)@;
    let mut k: usize = 0;
    while k < tys.len()
        invariant
            k <= tys@.len(),
            vals@.len() == tys@.len(),
            crate::layout::elems_ok(tys@),
            pos + tys@.len() <= cells@.len(),
            cells@.len() <= usize::MAX,
            m0 == old(m)@,
            tb0 == old(tbl)@,
            m0.len() <= usize::MAX,
            forall|j: int|
                0 <= j < tys@.len() ==> (#[trigger] cells@[pos + j]) as int + size_of(tys@[j])
                    <= m0.len(),
            m@.len() >= m0.len(),
            table_grew(tb0, tbl@),
            m@.len() <= m0.len() + alloc_sum_elems(tys@, seq_view(vals@), k as int),
            tbl@.len() <= tb0.len() + handle_sum(seq_view(vals@), k as int),
            forall|i: int|
                0 <= i < m0.len() && !in_result_window(tys@, cells@, pos as int, i) ==> m@[i]
                    == m0[i],
            results_disjoint(tys@, cells@, pos as int) ==> forall|j: int|
                0 <= j < k ==> #[trigger] reads_back(
                    tys@[j],
                    seq_view(vals@)[j],
                    m0,
                    m@,
                    tb0,
                    tbl@,
                    cells@[pos + j] as int,
                ),
            forall|j: int| 0 <= j < k ==> has_type(#[trigger] seq_view(vals@)[j], tys@[j]),
        decreases tys@.len() - k,
    {
        proof {
            assert(ty_ok(tys@[k as int]));
            lemma_ty_props(tys@[k as int]);
            assert((cells@[pos as int + k as int]) as int + size_of(tys@[k as int]) <= m0.len());
        }
        let dst64 = cells[pos + k];
        let dst = dst64 as usize;
        let ghost m_a = m@;
        let ghost tb_a = tbl@;
        match lower(&tys[k], &vals[k], m, tbl, dst) {
            Ok(_) => {
                proof {
                    assert(seq_view(vals@)[k as int] == vals@[k as int]@);
                    assert(alloc_sum_elems(tys@, seq_view(vals@), k as int + 1) == alloc_sum_elems(
                        tys@,
                        seq_view(vals@),
                        k as int,
                    ) + alloc_bound(tys@[k as int], seq_view(vals@)[k as int]));
                    assert(handle_sum(seq_view(vals@), k as int + 1) == handle_sum(
                        seq_view(vals@),
                        k as int,
                    ) + handle_count(seq_view(vals@)[k as int]));
                    let m_b = m@;
                    let tb_b = tbl@;
                    let dstk = cells@[pos as int + k as int] as int;
                    let sk = size_of(tys@[k as int]);
                    assert forall|i: int|
                        0 <= i < m0.len() && !in_result_window(tys@, cells@, pos as int, i)
                            implies m_b[i] == m0[i] by {
                        assert(!(dstk <= i < dstk + sk));
                        assert(m_b[i] == m_a[i]);
                    }
                    if results_disjoint(tys@, cells@, pos as int) {
                        lemma_reads_back_widen(
                            tys@[k as int],
                            seq_view(vals@)[k as int],
                            m0,
                            m_a,
                            m_b,
                            tb0,
                            tb_a,
                            tb_b,
                            dstk,
                        );
                        assert forall|j: int| 0 <= j < k as int implies #[trigger] reads_back(
                            tys@[j],
                            seq_view(vals@)[j],
                            m0,
                            m_b,
                            tb0,
                            tb_b,
                            cells@[pos + j] as int,
                        ) by {
                            let dstj = cells@[pos as int + j] as int;
                            assert(reads_back(
                                tys@[j],
                                seq_view(vals@)[j],
                                m0,
                                m_a,
                                tb0,
                                tb_a,
                                dstj,
                            ));
                            assert(dstj + size_of(tys@[j]) <= dstk || dstk + sk <= dstj);
                            assert forall|i: int|
                                dstj <= i < dstj + size_of(tys@[j]) implies m_b[i] == m_a[i] by {
                                assert(!(dstk <= i < dstk + sk));
                            }
                            assert forall|i: int|
                                m0.len() <= i < m_a.len() implies m_b[i] == m_a[i] by {
                                assert(!(dstk <= i < dstk + sk));
                            }
                            lemma_reads_back_stable(
                                tys@[j],
                                seq_view(vals@)[j],
                                m0,
                                m_a,
                                m_b,
                                tb0,
                                tb_a,
                                tb_b,
                                dstj,
                            );
                        }
                    }
                }
            },
            Err(e) => {
                proof {
                    assert(seq_view(vals@)[k as int] == vals@[k as int]@);
                    if e.kind == ErrorKind::AllocFailed {
                        assert(alloc_sum_elems(tys@, seq_view(vals@), k as int + 1)
                            == alloc_sum_elems(tys@, seq_view(vals@), k as int) + alloc_bound(
                            tys@[k as int],
                            seq_view(vals@)[k as int],
                        ));
                        lemma_alloc_sum_elems_mono(
                            tys@,
                            seq_view(vals@),
                            k as int + 1,
                            tys@.len() as int,
                        );
                    }
                    if e.kind == ErrorKind::EngineError {
                        assert(handle_sum(seq_view(vals@), k as int + 1) == handle_sum(
                            seq_view(vals@),
                            k as int,
                        ) + handle_count(seq_view(vals@)[k as int]));
                        lemma_handle_sum_mono(seq_view(vals@), k as int + 1, vals@.len() as int);
                    }
                }
                return Err(e);
            },
        }
        k = k + 1;
    }
    proof {
        if results_disjoint(tys@, cells@, pos as int) {
            assert forall|j: int| 0 <= j < tys@.len() implies (#[trigger] lift_spec(
                tys@[j],
                m@,
                tbl@,
                cells@[pos + j] as int,
            )) matches Some(out) && out.0 == seq_view(vals@)[j] by {
                assert(reads_back(
                    tys@[j],
                    seq_view(vals@)[j],
                    m0,
                    m@,
                    tb0,
                    tbl@,
                    cells@[pos + j] as int,
                ));
            }
        }
    }
    Ok(())
}

} // verus!
