//! Canonical layout: the size, alignment and flattened-cell count of every
//! schema type.
//!
//! The spec functions here are the single mathematical account of the
//! canonical ABI's layout rules; the executable [`layout_of`] computes them
//! with overflow checks and reports schemas the codec cannot represent.

use vstd::prelude::*;
use vstd::math::max;
use vstd::arithmetic::div_mod::{
    lemma_fundamental_div_mod, lemma_fundamental_div_mod_converse_mod,
    lemma_mod_division_less_than_divisor, lemma_mod_multiples_basic,
};

use crate::error::{Error, ErrorKind};
use crate::schema::{CaseTy, FieldTy, Ty};

verus! {

/// The smallest multiple of `align` that is at least `offset`.
pub open spec fn align_up(offset: int, align: int) -> int {
    ((offset + align - 1) / align) * align
}

/// Discriminant width in bytes for `n` cases or names: one byte up to 255,
/// two up to 65 535, four beyond.
pub open spec fn disc_size(n: int) -> int {
    if n <= 255 {
        1
    } else if n <= 65535 {
        2
    } else {
        4
    }
}

/// Packed-bitmap width in bytes for `n` flag names: one byte up to 8 names,
/// two up to 16, four up to 32.
pub open spec fn flags_size(n: int) -> int {
    if n <= 8 {
        1
    } else if n <= 16 {
        2
    } else {
        4
    }
}

/// Size and alignment of a tagged former (variant, option, result): the
/// discriminant first, then the payload area aligned to the largest payload
/// alignment, the whole rounded up to the overall alignment.
pub open spec fn tagged_size(disc: int, payload_align: int, payload_size: int) -> int {
    align_up(align_up(disc, payload_align) + payload_size, max(disc, payload_align))
}

/// Alignment of a case payload; a case without payload contributes 1.
pub open spec fn case_align(c: CaseTy) -> int
    decreases c, 1int,
{
    match c.payload {
        Some(ty) => align_of(ty),
        None => 1,
    }
}

/// Size of a case payload; a case without payload contributes 0.
pub open spec fn case_size(c: CaseTy) -> int
    decreases c, 1int,
{
    match c.payload {
        Some(ty) => size_of(ty),
        None => 0,
    }
}

/// Flattened cells of a case payload; a case without payload contributes 0.
pub open spec fn case_flat(c: CaseTy) -> int
    decreases c, 1int,
{
    match c.payload {
        Some(ty) => flat_of(ty),
        None => 0,
    }
}

/// Largest payload alignment among the first `k` cases, at least 1.
pub open spec fn cases_align(cs: Seq<CaseTy>, k: int) -> int
    decreases cs, k,
{
    if k <= 0 || k > cs.len() {
        1
    } else {
        max(cases_align(cs, k - 1), case_align(cs[k - 1]))
    }
}

/// Largest payload size among the first `k` cases, at least 0.
pub open spec fn cases_size(cs: Seq<CaseTy>, k: int) -> int
    decreases cs, k,
{
    if k <= 0 || k > cs.len() {
        0
    } else {
        max(cases_size(cs, k - 1), case_size(cs[k - 1]))
    }
}

/// Largest payload flattened-cell count among the first `k` cases.
pub open spec fn cases_flat(cs: Seq<CaseTy>, k: int) -> int
    decreases cs, k,
{
    if k <= 0 || k > cs.len() {
        0
    } else {
        max(cases_flat(cs, k - 1), case_flat(cs[k - 1]))
    }
}

/// Largest alignment among the first `k` record fields, at least 1.
pub open spec fn fields_align(fs: Seq<FieldTy>, k: int) -> int
    decreases fs, k,
{
    if k <= 0 || k > fs.len() {
        1
    } else {
        max(fields_align(fs, k - 1), align_of(fs[k - 1].ty))
    }
}

/// Running offset after laying out the first `k` record fields: before each
/// field the offset advances to the field's alignment, then by its size.
pub open spec fn fields_end(fs: Seq<FieldTy>, k: int) -> int
    decreases fs, k,
{
    if k <= 0 || k > fs.len() {
        0
    } else {
        align_up(fields_end(fs, k - 1), align_of(fs[k - 1].ty)) + size_of(fs[k - 1].ty)
    }
}

/// Canonical offset of field `k`: the running offset advanced to the field's
/// alignment.
pub open spec fn field_offset(fs: Seq<FieldTy>, k: int) -> int {
    align_up(fields_end(fs, k), align_of(fs[k].ty))
}

/// Sum of the flattened-cell counts of the first `k` record fields.
pub open spec fn fields_flat(fs: Seq<FieldTy>, k: int) -> int
    decreases fs, k,
{
    if k <= 0 || k > fs.len() {
        0
    } else {
        fields_flat(fs, k - 1) + flat_of(fs[k - 1].ty)
    }
}

/// Largest alignment among the first `k` tuple elements, at least 1.
pub open spec fn elems_align(ts: Seq<Ty>, k: int) -> int
    decreases ts, k,
{
    if k <= 0 || k > ts.len() {
        1
    } else {
        max(elems_align(ts, k - 1), align_of(ts[k - 1]))
    }
}

/// Running offset after laying out the first `k` tuple elements.
pub open spec fn elems_end(ts: Seq<Ty>, k: int) -> int
    decreases ts, k,
{
    if k <= 0 || k > ts.len() {
        0
    } else {
        align_up(elems_end(ts, k - 1), align_of(ts[k - 1])) + size_of(ts[k - 1])
    }
}

/// Canonical offset of tuple element `k`.
pub open spec fn elem_offset(ts: Seq<Ty>, k: int) -> int {
    align_up(elems_end(ts, k), align_of(ts[k]))
}

/// Sum of the flattened-cell counts of the first `k` tuple elements.
pub open spec fn elems_flat(ts: Seq<Ty>, k: int) -> int
    decreases ts, k,
{
    if k <= 0 || k > ts.len() {
        0
    } else {
        elems_flat(ts, k - 1) + flat_of(ts[k - 1])
    }
}

/// Alignment of an optional payload type, 1 when absent.
pub open spec fn opt_align(o: Option<Box<Ty>>) -> int
    decreases o, 1int,
{
    match o {
        Some(ty) => align_of(*ty),
        None => 1,
    }
}

/// Size of an optional payload type, 0 when absent.
pub open spec fn opt_size(o: Option<Box<Ty>>) -> int
    decreases o, 1int,
{
    match o {
        Some(ty) => size_of(*ty),
        None => 0,
    }
}

/// Flattened cells of an optional payload type, 0 when absent.
pub open spec fn opt_flat(o: Option<Box<Ty>>) -> int
    decreases o, 1int,
{
    match o {
        Some(ty) => flat_of(*ty),
        None => 0,
    }
}

/// Canonical alignment of a schema type.
pub open spec fn align_of(t: Ty) -> int
    decreases t, 0int,
{
    match t {
        Ty::Bool | Ty::S8 | Ty::U8 => 1,
        Ty::S16 | Ty::U16 => 2,
        Ty::S32 | Ty::U32 | Ty::F32 | Ty::Char => 4,
        Ty::S64 | Ty::U64 | Ty::F64 => 8,
        Ty::Str => 8,
        Ty::List(_) => 8,
        Ty::Record(fs) => fields_align(fs@, fs@.len() as int),
        Ty::Tuple(ts) => elems_align(ts@, ts@.len() as int),
        Ty::Variant(cs) => max(disc_size(cs@.len() as int), cases_align(cs@, cs@.len() as int)),
        Ty::Enum(ns) => disc_size(ns@.len() as int),
        Ty::Opt(inner) => max(1, align_of(*inner)),
        Ty::Res(ok, err) => max(1, max(opt_align(ok), opt_align(err))),
        Ty::Flags(ns) => flags_size(ns@.len() as int),
        Ty::Own(_) | Ty::Borrow(_) => 4,
    }
}

/// Canonical size of a schema type.  Strings and lists occupy a pair of
/// 8-byte cells: the data address and the element count.
pub open spec fn size_of(t: Ty) -> int
    decreases t, 0int,
{
    match t {
        Ty::Bool | Ty::S8 | Ty::U8 => 1,
        Ty::S16 | Ty::U16 => 2,
        Ty::S32 | Ty::U32 | Ty::F32 | Ty::Char => 4,
        Ty::S64 | Ty::U64 | Ty::F64 => 8,
        Ty::Str => 16,
        Ty::List(_) => 16,
        Ty::Record(fs) => align_up(
            fields_end(fs@, fs@.len() as int),
            fields_align(fs@, fs@.len() as int),
        ),
        Ty::Tuple(ts) => align_up(elems_end(ts@, ts@.len() as int), elems_align(ts@, ts@.len() as int)),
        Ty::Variant(cs) => tagged_size(
            disc_size(cs@.len() as int),
            cases_align(cs@, cs@.len() as int),
            cases_size(cs@, cs@.len() as int),
        ),
        Ty::Enum(ns) => disc_size(ns@.len() as int),
        Ty::Opt(inner) => tagged_size(1, align_of(*inner), size_of(*inner)),
        Ty::Res(ok, err) => tagged_size(
            1,
            max(opt_align(ok), opt_align(err)),
            max(opt_size(ok), opt_size(err)),
        ),
        Ty::Flags(ns) => flags_size(ns@.len() as int),
        Ty::Own(_) | Ty::Borrow(_) => 4,
    }
}

/// Number of cells a value of this type occupies in the flattened argument
/// vector.
pub open spec fn flat_of(t: Ty) -> int
    decreases t, 0int,
{
    match t {
        Ty::Bool | Ty::S8 | Ty::U8 | Ty::S16 | Ty::U16 => 1,
        Ty::S32 | Ty::U32 | Ty::F32 | Ty::Char => 1,
        Ty::S64 | Ty::U64 | Ty::F64 => 1,
        Ty::Str | Ty::List(_) => 2,
        Ty::Record(fs) => fields_flat(fs@, fs@.len() as int),
        Ty::Tuple(ts) => elems_flat(ts@, ts@.len() as int),
        Ty::Variant(cs) => 1 + cases_flat(cs@, cs@.len() as int),
        Ty::Enum(_) => 1,
        Ty::Opt(inner) => 1 + flat_of(*inner),
        Ty::Res(ok, err) => 1 + max(opt_flat(ok), opt_flat(err)),
        Ty::Flags(_) => 1,
        Ty::Own(_) | Ty::Borrow(_) => 1,
    }
}

/// The alignments the canonical ABI produces.
pub open spec fn is_align(a: int) -> bool {
    a == 1 || a == 2 || a == 4 || a == 8
}

/// A record field whose type holds an oversized flags former.
pub open spec fn any_field_big_flags(fs: Seq<FieldTy>) -> bool
    decreases fs, 0int,
{
    exists|i: int| 0 <= i < fs.len() && has_big_flags(#[trigger] fs[i].ty)
}

/// A tuple element whose type holds an oversized flags former.
pub open spec fn any_elem_big_flags(ts: Seq<Ty>) -> bool
    decreases ts, 0int,
{
    exists|i: int| 0 <= i < ts.len() && has_big_flags(#[trigger] ts[i])
}

/// A case payload whose type holds an oversized flags former.
pub open spec fn any_case_big_flags(cs: Seq<CaseTy>) -> bool
    decreases cs, 0int,
{
    exists|i: int|
        0 <= i < cs.len() && match #[trigger] cs[i].payload {
            Some(ty) => has_big_flags(ty),
            None => false,
        }
}

/// Somewhere in the schema, a flags former with more than 32 names.
pub open spec fn has_big_flags(t: Ty) -> bool
    decreases t, 1int,
{
    match t {
        Ty::List(e) => has_big_flags(*e),
        Ty::Record(fs) => any_field_big_flags(fs@),
        Ty::Tuple(ts) => any_elem_big_flags(ts@),
        Ty::Variant(cs) => any_case_big_flags(cs@),
        Ty::Opt(inner) => has_big_flags(*inner),
        Ty::Res(ok, err) => {
            ||| match ok {
                Some(ty) => has_big_flags(*ty),
                None => false,
            }
            ||| match err {
                Some(ty) => has_big_flags(*ty),
                None => false,
            }
        },
        Ty::Flags(ns) => ns@.len() > 32,
        _ => false,
    }
}

/// A record field whose type holds an oversized case count.
pub open spec fn any_field_big_count(fs: Seq<FieldTy>) -> bool
    decreases fs, 0int,
{
    exists|i: int| 0 <= i < fs.len() && has_big_count(#[trigger] fs[i].ty)
}

/// A tuple element whose type holds an oversized case count.
pub open spec fn any_elem_big_count(ts: Seq<Ty>) -> bool
    decreases ts, 0int,
{
    exists|i: int| 0 <= i < ts.len() && has_big_count(#[trigger] ts[i])
}

/// A case payload whose type holds an oversized case count.
pub open spec fn any_case_big_count(cs: Seq<CaseTy>) -> bool
    decreases cs, 0int,
{
    exists|i: int|
        0 <= i < cs.len() && match #[trigger] cs[i].payload {
            Some(ty) => has_big_count(ty),
            None => false,
        }
}

/// Somewhere in the schema, a variant or enum with more than 2^32 cases.
pub open spec fn has_big_count(t: Ty) -> bool
    decreases t, 1int,
{
    match t {
        Ty::List(e) => has_big_count(*e),
        Ty::Record(fs) => any_field_big_count(fs@),
        Ty::Tuple(ts) => any_elem_big_count(ts@),
        Ty::Variant(cs) => cs@.len() > 0x1_0000_0000 || any_case_big_count(cs@),
        Ty::Enum(ns) => ns@.len() > 0x1_0000_0000,
        Ty::Opt(inner) => has_big_count(*inner),
        Ty::Res(ok, err) => {
            ||| match ok {
                Some(ty) => has_big_count(*ty),
                None => false,
            }
            ||| match err {
                Some(ty) => has_big_count(*ty),
                None => false,
            }
        },
        _ => false,
    }
}

/// The schema uses only formers the codec supports: no flags beyond 32
/// names, no variant or enum beyond 2^32 cases.
pub open spec fn shape_ok(t: Ty) -> bool {
    !has_big_flags(t) && !has_big_count(t)
}

/// All record field types have representable sizes throughout.
pub open spec fn all_fields_fit(fs: Seq<FieldTy>) -> bool
    decreases fs, 0int,
{
    forall|i: int| 0 <= i < fs.len() ==> sizes_fit(#[trigger] fs[i].ty)
}

/// All tuple element types have representable sizes throughout.
pub open spec fn all_elems_fit(ts: Seq<Ty>) -> bool
    decreases ts, 0int,
{
    forall|i: int| 0 <= i < ts.len() ==> sizes_fit(#[trigger] ts[i])
}

/// All present case payload types have representable sizes throughout.
pub open spec fn all_cases_fit(cs: Seq<CaseTy>) -> bool
    decreases cs, 0int,
{
    forall|i: int|
        0 <= i < cs.len() ==> match #[trigger] cs[i].payload {
            Some(ty) => sizes_fit(ty),
            None => true,
        }
}

/// The size and flattened-cell count of the type, and of every type nested
/// in it, fit the target's address space.
pub open spec fn sizes_fit(t: Ty) -> bool
    decreases t, 1int,
{
    &&& size_of(t) <= usize::MAX as int
    &&& flat_of(t) <= usize::MAX as int
    &&& match t {
        Ty::List(e) => sizes_fit(*e) && size_of(*e) >= 1,
        Ty::Record(fs) => all_fields_fit(fs@),
        Ty::Tuple(ts) => all_elems_fit(ts@),
        Ty::Variant(cs) => all_cases_fit(cs@),
        Ty::Opt(inner) => sizes_fit(*inner),
        Ty::Res(ok, err) => {
            &&& match ok {
                Some(ty) => sizes_fit(*ty),
                None => true,
            }
            &&& match err {
                Some(ty) => sizes_fit(*ty),
                None => true,
            }
        },
        _ => true,
    }
}

/// A schema the codec can marshal on this target.
pub open spec fn ty_ok(t: Ty) -> bool {
    shape_ok(t) && sizes_fit(t)
}

/// `align_up` rounds up to the nearest multiple: it moves the offset forward
/// by less than one alignment unit, lands on a multiple, and leaves an
/// already-aligned offset alone.
pub proof fn lemma_align_up(x: int, a: int)
    requires
        x >= 0,
        a >= 1,
    ensures
        x <= align_up(x, a) < x + a,
        align_up(x, a) % a == 0,
        x % a == 0 ==> align_up(x, a) == x,
{
    let y = x + a - 1;
    lemma_fundamental_div_mod(y, a);
    lemma_mod_division_less_than_divisor(y, a);
    assert(a * (y / a) == (y / a) * a) by (nonlinear_arith);
    assert(align_up(x, a) == y - y % a);
    lemma_mod_multiples_basic(y / a, a);
    if x % a == 0 {
        lemma_fundamental_div_mod(x, a);
        lemma_mod_division_less_than_divisor(x, a);
        assert(y == (x / a) * a + (a - 1)) by (nonlinear_arith)
            requires
                x == a * (x / a) + x % a,
                x % a == 0,
                y == x + a - 1,
        ;
        lemma_fundamental_div_mod_converse_mod(y, a, x / a, a - 1);
    }
}

/// Two multiples of `a` within one alignment unit of each other are equal.
pub proof fn lemma_aligned_unique(m1: int, m2: int, a: int)
    requires
        a >= 1,
        m1 % a == 0,
        m2 % a == 0,
        m1 <= m2 < m1 + a,
    ensures
        m1 == m2,
{
    lemma_fundamental_div_mod(m1, a);
    lemma_fundamental_div_mod(m2, a);
    assert(m2 - m1 == a * (m2 / a) - a * (m1 / a));
    assert(a * (m2 / a) - a * (m1 / a) == a * (m2 / a - m1 / a)) by (nonlinear_arith);
    let d = m2 / a - m1 / a;
    assert(0 <= a * d < a);
    assert(a * d == 0) by (nonlinear_arith)
        requires
            a >= 1,
            0 <= a * d < a,
    ;
}

/// Every computed alignment is one of 1, 2, 4, 8; sizes and flattened-cell
/// counts are non-negative; and the alignment of a type divides its size
/// (the canonical layout never ends inside a padding hole).
pub proof fn lemma_ty_props(t: Ty)
    ensures
        is_align(align_of(t)),
        size_of(t) >= 0,
        flat_of(t) >= 0,
        size_of(t) % align_of(t) == 0,
    decreases t, 0int,
{
    match t {
        Ty::Record(fs) => {
            lemma_fields_props(fs@, fs@.len() as int);
            lemma_align_up(fields_end(fs@, fs@.len() as int), fields_align(fs@, fs@.len() as int));
        },
        Ty::Tuple(ts) => {
            lemma_elems_props(ts@, ts@.len() as int);
            lemma_align_up(elems_end(ts@, ts@.len() as int), elems_align(ts@, ts@.len() as int));
        },
        Ty::Variant(cs) => {
            lemma_cases_props(cs@, cs@.len() as int);
            let d = disc_size(cs@.len() as int);
            let pa = cases_align(cs@, cs@.len() as int);
            let ps = cases_size(cs@, cs@.len() as int);
            lemma_align_up(d, pa);
            lemma_align_up(align_up(d, pa) + ps, max(d, pa));
        },
        Ty::Opt(inner) => {
            lemma_ty_props(*inner);
            let pa = align_of(*inner);
            let ps = size_of(*inner);
            lemma_align_up(1, pa);
            lemma_align_up(align_up(1, pa) + ps, max(1, pa));
        },
        Ty::Res(ok, err) => {
            let pa = max(opt_align(ok), opt_align(err));
            let ps = max(opt_size(ok), opt_size(err));
            match ok {
                Some(ty) => {
                    lemma_ty_props(*ty);
                    assert(is_align(opt_align(ok)) && opt_size(ok) >= 0 && opt_flat(ok) >= 0);
                },
                None => {},
            }
            match err {
                Some(ty) => {
                    lemma_ty_props(*ty);
                    assert(is_align(opt_align(err)) && opt_size(err) >= 0 && opt_flat(err) >= 0);
                },
                None => {},
            }
            lemma_align_up(1, pa);
            lemma_align_up(align_up(1, pa) + ps, max(1, pa));
        },
        Ty::Enum(ns) => {
            let d = disc_size(ns@.len() as int);
            if d == 1 {
                assert(size_of(t) % align_of(t) == 0);
            } else if d == 2 {
                assert(size_of(t) % align_of(t) == 0);
            } else {
                assert(size_of(t) % align_of(t) == 0);
            }
        },
        Ty::Flags(ns) => {
            let w = flags_size(ns@.len() as int);
            if w == 1 {
                assert(size_of(t) % align_of(t) == 0);
            } else if w == 2 {
                assert(size_of(t) % align_of(t) == 0);
            } else {
                assert(size_of(t) % align_of(t) == 0);
            }
        },
        _ => {},
    }
}

/// Prefix properties of record-field layout: the running alignment stays in
/// the canonical set, offsets and cell counts stay non-negative.
pub proof fn lemma_fields_props(fs: Seq<FieldTy>, k: int)
    ensures
        is_align(fields_align(fs, k)),
        fields_end(fs, k) >= 0,
        fields_flat(fs, k) >= 0,
    decreases fs, k,
{
    if 0 < k <= fs.len() {
        lemma_fields_props(fs, k - 1);
        lemma_ty_props(fs[k - 1].ty);
        lemma_align_up(fields_end(fs, k - 1), align_of(fs[k - 1].ty));
    }
}

/// Prefix properties of tuple-element layout.
pub proof fn lemma_elems_props(ts: Seq<Ty>, k: int)
    ensures
        is_align(elems_align(ts, k)),
        elems_end(ts, k) >= 0,
        elems_flat(ts, k) >= 0,
    decreases ts, k,
{
    if 0 < k <= ts.len() {
        lemma_elems_props(ts, k - 1);
        lemma_ty_props(ts[k - 1]);
        lemma_align_up(elems_end(ts, k - 1), align_of(ts[k - 1]));
    }
}

/// Prefix properties of variant-case layout.
pub proof fn lemma_cases_props(cs: Seq<CaseTy>, k: int)
    ensures
        is_align(cases_align(cs, k)),
        cases_size(cs, k) >= 0,
        cases_flat(cs, k) >= 0,
    decreases cs, k,
{
    if 0 < k <= cs.len() {
        lemma_cases_props(cs, k - 1);
        match cs[k - 1].payload {
            Some(ty) => {
                lemma_ty_props(ty);
                assert(case_align(cs[k - 1]) == align_of(ty));
                assert(case_size(cs[k - 1]) == size_of(ty));
                assert(case_flat(cs[k - 1]) == flat_of(ty));
            },
            None => {
                assert(case_align(cs[k - 1]) == 1);
            },
        }
    }
}

/// The running record offset never moves backwards.
pub proof fn lemma_fields_end_mono(fs: Seq<FieldTy>, j: int, k: int)
    requires
        0 <= j <= k <= fs.len(),
    ensures
        fields_end(fs, j) <= fields_end(fs, k),
    decreases k - j,
{
    if j < k {
        lemma_fields_end_mono(fs, j, k - 1);
        if 0 < k <= fs.len() {
            lemma_fields_props(fs, k - 1);
            lemma_ty_props(fs[k - 1].ty);
            lemma_align_up(fields_end(fs, k - 1), align_of(fs[k - 1].ty));
        }
    }
}

/// The running tuple offset never moves backwards.
pub proof fn lemma_elems_end_mono(ts: Seq<Ty>, j: int, k: int)
    requires
        0 <= j <= k <= ts.len(),
    ensures
        elems_end(ts, j) <= elems_end(ts, k),
    decreases k - j,
{
    if j < k {
        lemma_elems_end_mono(ts, j, k - 1);
        if 0 < k <= ts.len() {
            lemma_elems_props(ts, k - 1);
            lemma_ty_props(ts[k - 1]);
            lemma_align_up(elems_end(ts, k - 1), align_of(ts[k - 1]));
        }
    }
}

/// Flattened-cell prefix sums never shrink.
pub proof fn lemma_fields_flat_mono(fs: Seq<FieldTy>, j: int, k: int)
    requires
        0 <= j <= k <= fs.len(),
    ensures
        fields_flat(fs, j) <= fields_flat(fs, k),
    decreases k - j,
{
    if j < k {
        lemma_fields_flat_mono(fs, j, k - 1);
        if 0 < k <= fs.len() {
            lemma_ty_props(fs[k - 1].ty);
        }
    }
}

/// The exact value `align_up` takes when the offset is not already aligned:
/// the offset plus the distance to the next multiple.
pub proof fn lemma_align_up_val(x: int, a: int, rem: int)
    requires
        x >= 0,
        a >= 1,
        rem == x % a,
        rem != 0,
    ensures
        align_up(x, a) == x + (a - rem),
{
    lemma_align_up(x, a);
    lemma_fundamental_div_mod(x, a);
    lemma_mod_division_less_than_divisor(x, a);
    let q = x / a;
    let v = x + (a - rem);
    assert(v == (q + 1) * a) by (nonlinear_arith)
        requires
            x == a * q + rem,
            v == x + (a - rem),
    ;
    lemma_mod_multiples_basic(q + 1, a);
    if align_up(x, a) <= v {
        lemma_aligned_unique(align_up(x, a), v, a);
    } else {
        lemma_aligned_unique(v, align_up(x, a), a);
    }
}

/// Flattened-cell prefix sums over tuple elements never shrink.
pub proof fn lemma_elems_flat_mono(ts: Seq<Ty>, j: int, k: int)
    requires
        0 <= j <= k <= ts.len(),
    ensures
        elems_flat(ts, j) <= elems_flat(ts, k),
    decreases k - j,
{
    if j < k {
        lemma_elems_flat_mono(ts, j, k - 1);
        if 0 < k <= ts.len() {
            lemma_ty_props(ts[k - 1]);
        }
    }
}

/// Size, alignment and flattened-cell count of a schema type, as the
/// executable layout calculator reports them.
#[derive(Clone, Copy, Debug, PartialEq, Eq, Structural)]
pub struct TyLayout {
    pub size: usize,
    pub align: usize,
    pub flat: usize,
}

/// Rounds `x` up to a multiple of `a`, or reports that the result does not
/// fit the address space.
pub fn align_up_usize(x: usize, a: usize) -> (r: Option<usize>)
    requires
        is_align(a as int),
    ensures
        r matches Some(v) ==> v as int == align_up(x as int, a as int),
        r is None ==> align_up(x as int, a as int) > usize::MAX as int,
{
    let rem = x % a;
    if rem == 0 {
        proof {
            lemma_align_up(x as int, a as int);
        }
        Some(x)
    } else {
        proof {
            lemma_align_up_val(x as int, a as int, rem as int);
        }
        x.checked_add(a - rem)
    }
}

/// Discriminant width for `count` cases or names: the 1/2/4-byte ladder,
/// refusing a schema with more than 2^32 cases.
pub fn disc_width(count: u64) -> (r: Result<usize, Error>)
    ensures
        count <= 0x1_0000_0000u64 <==> r is Ok,
        r matches Ok(w) ==> w as int == disc_size(count as int) && is_align(w as int),
        r matches Err(e) ==> e.kind == ErrorKind::SchemaTooLarge && e.path@.len() == 0,
{
    if count > 0x1_0000_0000u64 {
        Err(Error::new(ErrorKind::SchemaTooLarge))
    } else if count <= 255 {
        Ok(1)
    } else if count <= 65535 {
        Ok(2)
    } else {
        Ok(4)
    }
}

/// Packed-bitmap width for `count` flag names, refusing more than 32.
pub fn flags_width(count: usize) -> (r: Result<usize, Error>)
    ensures
        count <= 32 <==> r is Ok,
        r matches Ok(w) ==> w as int == flags_size(count as int) && is_align(w as int),
        r matches Err(e) ==> e.kind == ErrorKind::UnsupportedSchema && e.path@.len() == 0,
{
    if count > 32 {
        Err(Error::new(ErrorKind::UnsupportedSchema))
    } else if count <= 8 {
        Ok(1)
    } else if count <= 16 {
        Ok(2)
    } else {
        Ok(4)
    }
}


/// An overflowing record offset at any step dooms the whole record: the
/// final rounded size exceeds the address space too.
pub proof fn lemma_fields_end_overflow(fs: Seq<FieldTy>, i: int)
    requires
        0 <= i < fs.len(),
        fields_end(fs, i + 1) > usize::MAX as int,
    ensures
        align_up(fields_end(fs, fs.len() as int), fields_align(fs, fs.len() as int))
            > usize::MAX as int,
{
    lemma_fields_end_mono(fs, i + 1, fs.len() as int);
    lemma_fields_props(fs, fs.len() as int);
    lemma_align_up(fields_end(fs, fs.len() as int), fields_align(fs, fs.len() as int));
}

/// An overflowing record cell count at any step dooms the whole record.
pub proof fn lemma_fields_flat_overflow(fs: Seq<FieldTy>, i: int)
    requires
        0 <= i < fs.len(),
        fields_flat(fs, i + 1) > usize::MAX as int,
    ensures
        fields_flat(fs, fs.len() as int) > usize::MAX as int,
{
    lemma_fields_flat_mono(fs, i + 1, fs.len() as int);
}

/// An overflowing tuple offset at any step dooms the whole tuple.
pub proof fn lemma_elems_end_overflow(ts: Seq<Ty>, i: int)
    requires
        0 <= i < ts.len(),
        elems_end(ts, i + 1) > usize::MAX as int,
    ensures
        align_up(elems_end(ts, ts.len() as int), elems_align(ts, ts.len() as int))
            > usize::MAX as int,
{
    lemma_elems_end_mono(ts, i + 1, ts.len() as int);
    lemma_elems_props(ts, ts.len() as int);
    lemma_align_up(elems_end(ts, ts.len() as int), elems_align(ts, ts.len() as int));
}

/// An overflowing tuple cell count at any step dooms the whole tuple.
pub proof fn lemma_elems_flat_overflow(ts: Seq<Ty>, i: int)
    requires
        0 <= i < ts.len(),
        elems_flat(ts, i + 1) > usize::MAX as int,
    ensures
        elems_flat(ts, ts.len() as int) > usize::MAX as int,
{
    lemma_elems_flat_mono(ts, i + 1, ts.len() as int);
}

/// When every record field is marshallable, no field can witness an
/// oversized flags or case count, and every field's sizes fit.
pub proof fn lemma_fields_parts_ok(fs: Seq<FieldTy>)
    requires
        fields_ok(fs),
    ensures
        !any_field_big_flags(fs),
        !any_field_big_count(fs),
        all_fields_fit(fs),
{
    assert forall|j: int| 0 <= j < fs.len() implies !(#[trigger] has_big_flags(fs[j].ty))
        && !has_big_count(fs[j].ty) && sizes_fit(fs[j].ty) by {
        assert(ty_ok(fs[j].ty));
    }
}

/// When every tuple element is marshallable, none witnesses an unsupported
/// shape, and every element's sizes fit.
pub proof fn lemma_elems_parts_ok(ts: Seq<Ty>)
    requires
        elems_ok(ts),
    ensures
        !any_elem_big_flags(ts),
        !any_elem_big_count(ts),
        all_elems_fit(ts),
{
    assert forall|j: int| 0 <= j < ts.len() implies !(#[trigger] has_big_flags(ts[j]))
        && !has_big_count(ts[j]) && sizes_fit(ts[j]) by {
        assert(ty_ok(ts[j]));
    }
}

/// When every present case payload is marshallable, no case witnesses an
/// unsupported shape, and every payload's sizes fit.
pub proof fn lemma_cases_parts_ok(cs: Seq<CaseTy>)
    requires
        cases_ok(cs),
    ensures
        !any_case_big_flags(cs),
        !any_case_big_count(cs),
        all_cases_fit(cs),
{
    assert forall|j: int|
        0 <= j < cs.len() implies match #[trigger] cs[j].payload {
        Some(ty) => !has_big_flags(ty) && !has_big_count(ty) && sizes_fit(ty),
        None => true,
    } by {
        match cs[j].payload {
            Some(ty) => {
                assert(ty_ok(ty));
            },
            None => {},
        }
    }
}

/// A tagged layout whose payload area already overflows keeps overflowing
/// after the final rounding.
pub proof fn lemma_tagged_overflow(d: int, pa: int, ps: int)
    requires
        d >= 1,
        pa >= 1,
        ps >= 0,
        align_up(d, pa) + ps > usize::MAX as int,
    ensures
        tagged_size(d, pa, ps) > usize::MAX as int,
{
    lemma_align_up(d, pa);
    lemma_align_up(align_up(d, pa) + ps, max(d, pa));
}


/// Every record field is marshallable.
pub open spec fn fields_ok(fs: Seq<FieldTy>) -> bool {
    forall|j: int| 0 <= j < fs.len() ==> ty_ok(#[trigger] fs[j].ty)
}

/// Every tuple element is marshallable.
pub open spec fn elems_ok(ts: Seq<Ty>) -> bool {
    forall|j: int| 0 <= j < ts.len() ==> ty_ok(#[trigger] ts[j])
}

/// Every present case payload is marshallable.
pub open spec fn cases_ok(cs: Seq<CaseTy>) -> bool {
    forall|j: int|
        0 <= j < cs.len() ==> match #[trigger] cs[j].payload {
            Some(ty) => ty_ok(ty),
            None => true,
        }
}




/// Lays out a record's fields in declaration order, advancing the offset to
/// each field's alignment, and reports the rounded size, largest alignment
/// and total cell count.
fn layout_record(fs: &Vec<FieldTy>) -> (r: Result<TyLayout, Error>)
    ensures
        r is Ok <==> (fields_ok(fs@) && align_up(
            fields_end(fs@, fs@.len() as int),
            fields_align(fs@, fs@.len() as int),
        ) <= usize::MAX as int && fields_flat(fs@, fs@.len() as int) <= usize::MAX as int),
        r matches Ok(l) ==> l.size as int == align_up(
            fields_end(fs@, fs@.len() as int),
            fields_align(fs@, fs@.len() as int),
        ) && l.align as int == fields_align(fs@, fs@.len() as int) && l.flat as int == fields_flat(
            fs@,
            fs@.len() as int,
        ) && is_align(l.align as int),
        r matches Err(e) ==> e.kind == ErrorKind::UnsupportedSchema || e.kind
            == ErrorKind::SchemaTooLarge,
        r matches Err(e) && e.kind == ErrorKind::UnsupportedSchema ==> any_field_big_flags(fs@)
            || !all_fields_fit(fs@),
        r matches Err(e) && e.kind == ErrorKind::SchemaTooLarge ==> any_field_big_count(fs@)
            || !all_fields_fit(fs@) || align_up(
            fields_end(fs@, fs@.len() as int),
            fields_align(fs@, fs@.len() as int),
        ) > usize::MAX as int || fields_flat(fs@, fs@.len() as int) > usize::MAX as int,
    decreases *fs, 0int,
{
    let ghost gfs = fs@;
    let mut end: usize = 0;
    let mut al: usize = 1;
    let mut fl: usize = 0;
    let mut i: usize = 0;
    while i < fs.len()
        invariant
            i <= gfs.len(),
            gfs == fs@,
            end as int == fields_end(gfs, i as int),
            al as int == fields_align(gfs, i as int),
            fl as int == fields_flat(gfs, i as int),
            is_align(al as int),
            forall|j: int| 0 <= j < i ==> ty_ok(#[trigger] gfs[j].ty),
        decreases gfs.len() - i,
    {
        proof {
            assert(decreases_to!(*fs => fs@));
            assert(decreases_to!(fs@ => fs@[i as int]));
            assert(decreases_to!(fs@[i as int] => fs@[i as int].ty));
            assert(decreases_to!(*fs => fs@[i as int].ty));
        }
        let l = match layout_of(&fs[i].ty) {
            Ok(l) => l,
            Err(e) => {
                proof {
                    assert(!ty_ok(gfs[i as int].ty));
                    if e.kind == ErrorKind::UnsupportedSchema {
                        if has_big_flags(gfs[i as int].ty) {
                            assert(any_field_big_flags(gfs));
                        } else {
                            assert(!sizes_fit(gfs[i as int].ty));
                            assert(!all_fields_fit(gfs));
                        }
                    } else {
                        if has_big_count(gfs[i as int].ty) {
                            assert(any_field_big_count(gfs));
                        } else {
                            assert(!sizes_fit(gfs[i as int].ty));
                            assert(!all_fields_fit(gfs));
                        }
                    }
                }
                return Err(e);
            },
        };
        proof {
            lemma_ty_props(gfs[i as int].ty);
            lemma_fields_props(gfs, i as int);
        }
        let aligned = match align_up_usize(end, l.align) {
            Some(v) => v,
            None => {
                proof {
                    assert(fields_end(gfs, i as int + 1) > usize::MAX as int);
                    lemma_fields_end_overflow(gfs, i as int);
                }
                return Err(Error::new(ErrorKind::SchemaTooLarge));
            },
        };
        let new_end = match aligned.checked_add(l.size) {
            Some(v) => v,
            None => {
                proof {
                    assert(fields_end(gfs, i as int + 1) > usize::MAX as int);
                    lemma_fields_end_overflow(gfs, i as int);
                }
                return Err(Error::new(ErrorKind::SchemaTooLarge));
            },
        };
        let new_fl = match fl.checked_add(l.flat) {
            Some(v) => v,
            None => {
                proof {
                    assert(fields_flat(gfs, i as int + 1) > usize::MAX as int);
                    lemma_fields_flat_overflow(gfs, i as int);
                }
                return Err(Error::new(ErrorKind::SchemaTooLarge));
            },
        };
        al = if l.align > al {
            l.align
        } else {
            al
        };
        end = new_end;
        fl = new_fl;
        i = i + 1;
    }
    let size = match align_up_usize(end, al) {
        Some(v) => v,
        None => {
            return Err(Error::new(ErrorKind::SchemaTooLarge));
        },
    };
    Ok(TyLayout { size, align: al, flat: fl })
}

/// Lays out a tuple's elements in order, exactly as record fields.
fn layout_tuple(ts: &Vec<Ty>) -> (r: Result<TyLayout, Error>)
    ensures
        r is Ok <==> (elems_ok(ts@) && align_up(
            elems_end(ts@, ts@.len() as int),
            elems_align(ts@, ts@.len() as int),
        ) <= usize::MAX as int && elems_flat(ts@, ts@.len() as int) <= usize::MAX as int),
        r matches Ok(l) ==> l.size as int == align_up(
            elems_end(ts@, ts@.len() as int),
            elems_align(ts@, ts@.len() as int),
        ) && l.align as int == elems_align(ts@, ts@.len() as int) && l.flat as int == elems_flat(
            ts@,
            ts@.len() as int,
        ) && is_align(l.align as int),
        r matches Err(e) ==> e.kind == ErrorKind::UnsupportedSchema || e.kind
            == ErrorKind::SchemaTooLarge,
        r matches Err(e) && e.kind == ErrorKind::UnsupportedSchema ==> any_elem_big_flags(ts@)
            || !all_elems_fit(ts@),
        r matches Err(e) && e.kind == ErrorKind::SchemaTooLarge ==> any_elem_big_count(ts@)
            || !all_elems_fit(ts@) || align_up(
            elems_end(ts@, ts@.len() as int),
            elems_align(ts@, ts@.len() as int),
        ) > usize::MAX as int || elems_flat(ts@, ts@.len() as int) > usize::MAX as int,
    decreases *ts, 0int,
{
    let ghost gts = ts@;
    let mut end: usize = 0;
    let mut al: usize = 1;
    let mut fl: usize = 0;
    let mut i: usize = 0;
    while i < ts.len()
        invariant
            i <= gts.len(),
            gts == ts@,
            end as int == elems_end(gts, i as int),
            al as int == elems_align(gts, i as int),
            fl as int == elems_flat(gts, i as int),
            is_align(al as int),
            forall|j: int| 0 <= j < i ==> ty_ok(#[trigger] gts[j]),
        decreases gts.len() - i,
    {
        proof {
            assert(decreases_to!(*ts => ts@));
            assert(decreases_to!(ts@ => ts@[i as int]));
            assert(decreases_to!(*ts => ts@[i as int]));
        }
        let l = match layout_of(&ts[i]) {
            Ok(l) => l,
            Err(e) => {
                proof {
                    assert(!ty_ok(gts[i as int]));
                    if e.kind == ErrorKind::UnsupportedSchema {
                        if has_big_flags(gts[i as int]) {
                            assert(any_elem_big_flags(gts));
                        } else {
                            assert(!sizes_fit(gts[i as int]));
                            assert(!all_elems_fit(gts));
                        }
                    } else {
                        if has_big_count(gts[i as int]) {
                            assert(any_elem_big_count(gts));
                        } else {
                            assert(!sizes_fit(gts[i as int]));
                            assert(!all_elems_fit(gts));
                        }
                    }
                }
                return Err(e);
            },
        };
        proof {
            lemma_ty_props(gts[i as int]);
            lemma_elems_props(gts, i as int);
        }
        let aligned = match align_up_usize(end, l.align) {
            Some(v) => v,
            None => {
                proof {
                    assert(elems_end(gts, i as int + 1) > usize::MAX as int);
                    lemma_elems_end_overflow(gts, i as int);
                }
                return Err(Error::new(ErrorKind::SchemaTooLarge));
            },
        };
        let new_end = match aligned.checked_add(l.size) {
            Some(v) => v,
            None => {
                proof {
                    assert(elems_end(gts, i as int + 1) > usize::MAX as int);
                    lemma_elems_end_overflow(gts, i as int);
                }
                return Err(Error::new(ErrorKind::SchemaTooLarge));
            },
        };
        let new_fl = match fl.checked_add(l.flat) {
            Some(v) => v,
            None => {
                proof {
                    assert(elems_flat(gts, i as int + 1) > usize::MAX as int);
                    lemma_elems_flat_overflow(gts, i as int);
                }
                return Err(Error::new(ErrorKind::SchemaTooLarge));
            },
        };
        al = if l.align > al {
            l.align
        } else {
            al
        };
        end = new_end;
        fl = new_fl;
        i = i + 1;
    }
    let size = match align_up_usize(end, al) {
        Some(v) => v,
        None => {
            return Err(Error::new(ErrorKind::SchemaTooLarge));
        },
    };
    Ok(TyLayout { size, align: al, flat: fl })
}

/// Finds the largest payload alignment, size and cell count over a
/// variant's cases.  Maxima cannot overflow, so this fails only when a
/// payload type itself is refused.
pub(crate) fn layout_cases(cs: &Vec<CaseTy>) -> (r: Result<(usize, usize, usize), Error>)
    ensures
        r is Ok <==> cases_ok(cs@),
        r matches Ok(m) ==> m.0 as int == cases_align(cs@, cs@.len() as int) && m.1 as int
            == cases_size(cs@, cs@.len() as int) && m.2 as int == cases_flat(cs@, cs@.len() as int)
            && is_align(m.0 as int),
        r matches Err(e) ==> e.kind == ErrorKind::UnsupportedSchema || e.kind
            == ErrorKind::SchemaTooLarge,
        r matches Err(e) && e.kind == ErrorKind::UnsupportedSchema ==> any_case_big_flags(cs@)
            || !all_cases_fit(cs@),
        r matches Err(e) && e.kind == ErrorKind::SchemaTooLarge ==> any_case_big_count(cs@)
            || !all_cases_fit(cs@),
    decreases *cs, 0int,
{
    let ghost gcs = cs@;
    let mut pa: usize = 1;
    let mut ps: usize = 0;
    let mut pf: usize = 0;
    let mut i: usize = 0;
    while i < cs.len()
        invariant
            i <= gcs.len(),
            gcs == cs@,
            pa as int == cases_align(gcs, i as int),
            ps as int == cases_size(gcs, i as int),
            pf as int == cases_flat(gcs, i as int),
            is_align(pa as int),
            forall|j: int|
                0 <= j < i ==> match #[trigger] gcs[j].payload {
                    Some(ty) => ty_ok(ty),
                    None => true,
                },
        decreases gcs.len() - i,
    {
        match &cs[i].payload {
            Some(ty) => {
                proof {
                    assert(decreases_to!(*cs => cs@));
                    assert(decreases_to!(cs@ => cs@[i as int]));
                    assert(decreases_to!(cs@[i as int] => cs@[i as int].payload));
                    assert(decreases_to!(cs@[i as int].payload => cs@[i as int].payload->Some_0));
                    assert(decreases_to!(*cs => cs@[i as int].payload->Some_0));
                }
                let l = match layout_of(ty) {
                    Ok(l) => l,
                    Err(e) => {
                        proof {
                            let pt = gcs[i as int].payload->Some_0;
                            assert(!ty_ok(pt));
                            if e.kind == ErrorKind::UnsupportedSchema {
                                if has_big_flags(pt) {
                                    assert(any_case_big_flags(gcs));
                                } else {
                                    assert(!sizes_fit(pt));
                                    assert(!all_cases_fit(gcs));
                                }
                            } else {
                                if has_big_count(pt) {
                                    assert(any_case_big_count(gcs));
                                } else {
                                    assert(!sizes_fit(pt));
                                    assert(!all_cases_fit(gcs));
                                }
                            }
                        }
                        return Err(e);
                    },
                };
                proof {
                    lemma_ty_props(gcs[i as int].payload->Some_0);
                    assert(case_align(gcs[i as int]) == l.align as int);
                    assert(case_size(gcs[i as int]) == l.size as int);
                    assert(case_flat(gcs[i as int]) == l.flat as int);
                }
                pa = if l.align > pa {
                    l.align
                } else {
                    pa
                };
                ps = if l.size > ps {
                    l.size
                } else {
                    ps
                };
                pf = if l.flat > pf {
                    l.flat
                } else {
                    pf
                };
            },
            None => {
                proof {
                    assert(case_align(gcs[i as int]) == 1);
                    assert(case_size(gcs[i as int]) == 0);
                    assert(case_flat(gcs[i as int]) == 0);
                }
            },
        }
        i = i + 1;
    }
    Ok((pa, ps, pf))
}

/// Computes size, alignment and cell count of a tagged former from its
/// discriminant width and payload maxima, checking for overflow.
fn layout_tagged(d: usize, pa: usize, ps: usize, pf: usize) -> (r: Result<TyLayout, Error>)
    requires
        is_align(d as int),
        is_align(pa as int),
    ensures
        r is Ok <==> (tagged_size(d as int, pa as int, ps as int) <= usize::MAX as int && pf
            < usize::MAX),
        r matches Ok(l) ==> l.size as int == tagged_size(d as int, pa as int, ps as int)
            && l.align as int == max(d as int, pa as int) && l.flat as int == 1 + pf as int
            && is_align(l.align as int),
        r matches Err(e) ==> e.kind == ErrorKind::SchemaTooLarge && (tagged_size(
            d as int,
            pa as int,
            ps as int,
        ) > usize::MAX as int || 1 + pf as int > usize::MAX as int),
{
    let aligned = match align_up_usize(d, pa) {
        Some(v) => v,
        None => {
            proof {
                lemma_align_up(d as int, pa as int);
                assert(false);
            }
            return Err(Error::new(ErrorKind::SchemaTooLarge));
        },
    };
    let payload_end = match aligned.checked_add(ps) {
        Some(v) => v,
        None => {
            proof {
                lemma_tagged_overflow(d as int, pa as int, ps as int);
            }
            return Err(Error::new(ErrorKind::SchemaTooLarge));
        },
    };
    let oa = if d > pa {
        d
    } else {
        pa
    };
    let size = match align_up_usize(payload_end, oa) {
        Some(v) => v,
        None => {
            return Err(Error::new(ErrorKind::SchemaTooLarge));
        },
    };
    let flat = match pf.checked_add(1) {
        Some(v) => v,
        None => {
            return Err(Error::new(ErrorKind::SchemaTooLarge));
        },
    };
    proof {
        lemma_align_up(d as int, pa as int);
        lemma_align_up(align_up(d as int, pa as int) + ps as int, max(d as int, pa as int));
    }
    Ok(TyLayout { size, align: oa, flat })
}

/// Layout of a record former, stated over the constructed schema type.
fn layout_of_record(fs: &Vec<FieldTy>) -> (r: Result<TyLayout, Error>)
    ensures
        r is Ok <==> ty_ok(Ty::Record(*fs)),
        r matches Ok(l) ==> l.size as int == size_of(Ty::Record(*fs)) && l.align as int
            == align_of(Ty::Record(*fs)) && l.flat as int == flat_of(Ty::Record(*fs)) && is_align(
            l.align as int,
        ),
        r matches Err(e) ==> e.kind == ErrorKind::UnsupportedSchema || e.kind
            == ErrorKind::SchemaTooLarge,
        r matches Err(e) && e.kind == ErrorKind::UnsupportedSchema ==> has_big_flags(
            Ty::Record(*fs),
        ) || !sizes_fit(Ty::Record(*fs)),
        r matches Err(e) && e.kind == ErrorKind::SchemaTooLarge ==> has_big_count(Ty::Record(*fs))
            || !sizes_fit(Ty::Record(*fs)),
    decreases *fs, 1int,
{
    let rr = layout_record(fs);
    proof {
        let t = Ty::Record(*fs);
        match &rr {
            Ok(l) => {
                lemma_fields_parts_ok(fs@);
                assert(ty_ok(t));
            },
            Err(e) => {
                if e.kind == ErrorKind::UnsupportedSchema {
                    assert(has_big_flags(t) || !sizes_fit(t));
                } else {
                    assert(has_big_count(t) || !sizes_fit(t));
                }
                assert(!ty_ok(t));
            },
        }
    }
    rr
}

/// Layout of a tuple former, stated over the constructed schema type.
fn layout_of_tuple(ts: &Vec<Ty>) -> (r: Result<TyLayout, Error>)
    ensures
        r is Ok <==> ty_ok(Ty::Tuple(*ts)),
        r matches Ok(l) ==> l.size as int == size_of(Ty::Tuple(*ts)) && l.align as int == align_of(
            Ty::Tuple(*ts),
        ) && l.flat as int == flat_of(Ty::Tuple(*ts)) && is_align(l.align as int),
        r matches Err(e) ==> e.kind == ErrorKind::UnsupportedSchema || e.kind
            == ErrorKind::SchemaTooLarge,
        r matches Err(e) && e.kind == ErrorKind::UnsupportedSchema ==> has_big_flags(
            Ty::Tuple(*ts),
        ) || !sizes_fit(Ty::Tuple(*ts)),
        r matches Err(e) && e.kind == ErrorKind::SchemaTooLarge ==> has_big_count(Ty::Tuple(*ts))
            || !sizes_fit(Ty::Tuple(*ts)),
    decreases *ts, 1int,
{
    let rr = layout_tuple(ts);
    proof {
        let t = Ty::Tuple(*ts);
        match &rr {
            Ok(l) => {
                lemma_elems_parts_ok(ts@);
                assert(ty_ok(t));
            },
            Err(e) => {
                if e.kind == ErrorKind::UnsupportedSchema {
                    assert(has_big_flags(t) || !sizes_fit(t));
                } else {
                    assert(has_big_count(t) || !sizes_fit(t));
                }
                assert(!ty_ok(t));
            },
        }
    }
    rr
}

/// Layout of a variant former: discriminant width from the case count, then
/// the payload maxima, then the tagged layout.
fn layout_of_variant(cs: &Vec<CaseTy>) -> (r: Result<TyLayout, Error>)
    ensures
        r is Ok <==> ty_ok(Ty::Variant(*cs)),
        r matches Ok(l) ==> l.size as int == size_of(Ty::Variant(*cs)) && l.align as int
            == align_of(Ty::Variant(*cs)) && l.flat as int == flat_of(Ty::Variant(*cs))
            && is_align(l.align as int),
        r matches Err(e) ==> e.kind == ErrorKind::UnsupportedSchema || e.kind
            == ErrorKind::SchemaTooLarge,
        r matches Err(e) && e.kind == ErrorKind::UnsupportedSchema ==> has_big_flags(
            Ty::Variant(*cs),
        ) || !sizes_fit(Ty::Variant(*cs)),
        r matches Err(e) && e.kind == ErrorKind::SchemaTooLarge ==> has_big_count(Ty::Variant(*cs))
            || !sizes_fit(Ty::Variant(*cs)),
    decreases *cs, 1int,
{
    let ghost t = Ty::Variant(*cs);
    let d = match disc_width(cs.len() as u64) {
        Ok(w) => w,
        Err(e) => {
            proof {
                assert(has_big_count(t));
                assert(!ty_ok(t));
            }
            return Err(e);
        },
    };
    let m = match layout_cases(cs) {
        Ok(m) => m,
        Err(e) => {
            proof {
                if e.kind == ErrorKind::UnsupportedSchema {
                    assert(has_big_flags(t) || !sizes_fit(t));
                } else {
                    assert(has_big_count(t) || !sizes_fit(t));
                }
                assert(!ty_ok(t));
            }
            return Err(e);
        },
    };
    let rr = layout_tagged(d, m.0, m.1, m.2);
    proof {
        lemma_cases_props(cs@, cs@.len() as int);
        match &rr {
            Ok(l) => {
                lemma_cases_parts_ok(cs@);
                assert(ty_ok(t));
            },
            Err(e) => {
                assert(!sizes_fit(t));
                assert(!ty_ok(t));
            },
        }
    }
    rr
}

/// Layout of an option former: a two-case tagged layout whose only payload
/// is the inner type.
fn layout_of_opt(inner: &Box<Ty>) -> (r: Result<TyLayout, Error>)
    ensures
        r is Ok <==> ty_ok(Ty::Opt(*inner)),
        r matches Ok(l) ==> l.size as int == size_of(Ty::Opt(*inner)) && l.align as int
            == align_of(Ty::Opt(*inner)) && l.flat as int == flat_of(Ty::Opt(*inner)) && is_align(
            l.align as int,
        ),
        r matches Err(e) ==> e.kind == ErrorKind::UnsupportedSchema || e.kind
            == ErrorKind::SchemaTooLarge,
        r matches Err(e) && e.kind == ErrorKind::UnsupportedSchema ==> has_big_flags(
            Ty::Opt(*inner),
        ) || !sizes_fit(Ty::Opt(*inner)),
        r matches Err(e) && e.kind == ErrorKind::SchemaTooLarge ==> has_big_count(Ty::Opt(*inner))
            || !sizes_fit(Ty::Opt(*inner)),
    decreases *inner, 1int,
{
    let ghost t = Ty::Opt(*inner);
    let l = match layout_of(&**inner) {
        Ok(l) => l,
        Err(e) => {
            proof {
                assert(!ty_ok(t));
            }
            return Err(e);
        },
    };
    proof {
        lemma_ty_props(**inner);
    }
    let rr = layout_tagged(1, l.align, l.size, l.flat);
    proof {
        match &rr {
            Ok(rl) => {
                assert(max(1, align_of(**inner)) == max(1int, l.align as int));
                assert(ty_ok(t));
            },
            Err(e) => {
                assert(!sizes_fit(t));
                assert(!ty_ok(t));
            },
        }
    }
    rr
}

/// Layout measures of an optional case payload: absent payloads occupy no
/// space, demand no alignment and no cells.
pub(crate) fn layout_opt_payload(o: &Option<Box<Ty>>) -> (r: Result<TyLayout, Error>)
    ensures
        r is Ok <==> (match *o {
            Some(b) => ty_ok(*b),
            None => true,
        }),
        r matches Ok(l) ==> l.size as int == opt_size(*o) && l.align as int == opt_align(*o)
            && l.flat as int == opt_flat(*o) && is_align(l.align as int),
        r matches Err(e) ==> e.kind == ErrorKind::UnsupportedSchema || e.kind
            == ErrorKind::SchemaTooLarge,
        r matches Err(e) && e.kind == ErrorKind::UnsupportedSchema ==> (match *o {
            Some(b) => has_big_flags(*b) || !sizes_fit(*b),
            None => false,
        }),
        r matches Err(e) && e.kind == ErrorKind::SchemaTooLarge ==> (match *o {
            Some(b) => has_big_count(*b) || !sizes_fit(*b),
            None => false,
        }),
    decreases *o, 1int,
{
    match o {
        Some(ty) => {
            proof {
                assert(decreases_to!(*o => (*o)->Some_0));
            }
            layout_of(&**ty)
        },
        None => Ok(TyLayout { size: 0, align: 1, flat: 0 }),
    }
}

/// Computes the canonical layout of a schema type.
///
/// Succeeds exactly on the schemas this codec supports on this target:
/// flags of at most 32 names, variants and enums of at most 2^32 cases,
/// and every nested size and cell count representable in the address space.
/// A failure is `UnsupportedSchema` only for oversized flags and
/// `SchemaTooLarge` only for an oversized case count or layout.
///
/// A list whose element type has size zero is refused as
/// `UnsupportedSchema`: every element of its payload block would alias the
/// same address, so no count of elements could be read back.
#[verifier::rlimit(50)]
pub fn layout_of(t: &Ty) -> (r: Result<TyLayout, Error>)
    ensures
        r is Ok <==> ty_ok(*t),
        r matches Ok(l) ==> l.size as int == size_of(*t) && l.align as int == align_of(*t)
            && l.flat as int == flat_of(*t) && is_align(l.align as int),
        r matches Err(e) ==> e.kind == ErrorKind::UnsupportedSchema || e.kind
            == ErrorKind::SchemaTooLarge,
        r matches Err(e) && e.kind == ErrorKind::UnsupportedSchema ==> has_big_flags(*t)
            || !sizes_fit(*t),
        r matches Err(e) && e.kind == ErrorKind::SchemaTooLarge ==> has_big_count(*t)
            || !sizes_fit(*t),
    decreases *t, 0int,
{
    match t {
        Ty::Bool | Ty::S8 | Ty::U8 => Ok(TyLayout { size: 1, align: 1, flat: 1 }),
        Ty::S16 | Ty::U16 => Ok(TyLayout { size: 2, align: 2, flat: 1 }),
        Ty::S32 | Ty::U32 | Ty::F32 | Ty::Char => Ok(TyLayout { size: 4, align: 4, flat: 1 }),
        Ty::S64 | Ty::U64 | Ty::F64 => Ok(TyLayout { size: 8, align: 8, flat: 1 }),
        Ty::Str => Ok(TyLayout { size: 16, align: 8, flat: 2 }),
        Ty::Own(_) | Ty::Borrow(_) => Ok(TyLayout { size: 4, align: 4, flat: 1 }),
        Ty::List(elem) => {
            proof {
                assert(decreases_to!(*t => (*t)->List_0));
            }
            match layout_of(&**elem) {
                Ok(l) => {
                    if l.size == 0 {
                        proof {
                            assert(!sizes_fit(*t));
                        }
                        Err(Error::new(ErrorKind::UnsupportedSchema))
                    } else {
                        Ok(TyLayout { size: 16, align: 8, flat: 2 })
                    }
                },
                Err(e) => Err(e),
            }
        },
        Ty::Enum(ns) => {
            let w = disc_width(ns.len() as u64)?;
            Ok(TyLayout { size: w, align: w, flat: 1 })
        },
        Ty::Flags(ns) => {
            let w = flags_width(ns.len())?;
            Ok(TyLayout { size: w, align: w, flat: 1 })
        },
        Ty::Record(fs) => {
            proof {
                assert(decreases_to!(*t => (*t)->Record_0));
                assert((*t)->Record_0 == *fs);
            }
            layout_of_record(fs)
        },
        Ty::Tuple(ts) => {
            proof {
                assert(decreases_to!(*t => (*t)->Tuple_0));
                assert((*t)->Tuple_0 == *ts);
            }
            layout_of_tuple(ts)
        },
        Ty::Variant(cs) => {
            proof {
                assert(decreases_to!(*t => (*t)->Variant_0));
                assert((*t)->Variant_0 == *cs);
            }
            layout_of_variant(cs)
        },
        Ty::Opt(inner) => {
            proof {
                assert(decreases_to!(*t => (*t)->Opt_0));
            }
            layout_of_opt(inner)
        },
        Ty::Res(ok_ty, err_ty) => {
            proof {
                assert(decreases_to!(*t => (*t)->Res_0));
                assert(decreases_to!(*t => (*t)->Res_1));
            }
            let lo = match layout_opt_payload(ok_ty) {
                Ok(l) => l,
                Err(e) => {
                    proof {
                        assert(!ty_ok(*t));
                    }
                    return Err(e);
                },
            };
            let le = match layout_opt_payload(err_ty) {
                Ok(l) => l,
                Err(e) => {
                    proof {
                        assert(!ty_ok(*t));
                    }
                    return Err(e);
                },
            };
            let pa = if lo.align > le.align {
                lo.align
            } else {
                le.align
            };
            let ps = if lo.size > le.size {
                lo.size
            } else {
                le.size
            };
            let pf = if lo.flat > le.flat {
                lo.flat
            } else {
                le.flat
            };
            let rr = layout_tagged(1, pa, ps, pf);
            proof {
                match &rr {
                    Ok(rl) => {
                        assert(max(1int, pa as int) == pa as int);
                        assert(ty_ok(*t));
                    },
                    Err(e) => {
                        assert(!sizes_fit(*t));
                        assert(!ty_ok(*t));
                    },
                }
            }
            rr
        },
    }
}

/// An optional payload's layout measures are non-negative, its alignment
/// canonical.
pub proof fn lemma_res_opt_props(o: Option<Box<Ty>>)
    ensures
        is_align(opt_align(o)),
        opt_size(o) >= 0,
        opt_flat(o) >= 0,
{
    match o {
        Some(b) => {
            lemma_ty_props(*b);
        },
        None => {},
    }
}

/// Each record field's slot lies inside the record: its offset starts at
/// or after the running end, and ends before the rounded record size.
pub proof fn lemma_field_in_record(fs: Seq<FieldTy>, i: int)
    requires
        0 <= i < fs.len(),
    ensures
        0 <= fields_end(fs, i) <= field_offset(fs, i),
        field_offset(fs, i) + size_of(fs[i].ty) == fields_end(fs, i + 1),
        fields_end(fs, i + 1) <= align_up(
            fields_end(fs, fs.len() as int),
            fields_align(fs, fs.len() as int),
        ),
{
    lemma_fields_props(fs, i);
    lemma_ty_props(fs[i].ty);
    lemma_align_up(fields_end(fs, i), align_of(fs[i].ty));
    lemma_fields_end_mono(fs, i + 1, fs.len() as int);
    lemma_fields_props(fs, fs.len() as int);
    lemma_align_up(fields_end(fs, fs.len() as int), fields_align(fs, fs.len() as int));
}

/// Each tuple element's slot lies inside the tuple.
pub proof fn lemma_elem_in_tuple(ts: Seq<Ty>, i: int)
    requires
        0 <= i < ts.len(),
    ensures
        0 <= elems_end(ts, i) <= elem_offset(ts, i),
        elem_offset(ts, i) + size_of(ts[i]) == elems_end(ts, i + 1),
        elems_end(ts, i + 1) <= align_up(
            elems_end(ts, ts.len() as int),
            elems_align(ts, ts.len() as int),
        ),
{
    lemma_elems_props(ts, i);
    lemma_ty_props(ts[i]);
    lemma_align_up(elems_end(ts, i), align_of(ts[i]));
    lemma_elems_end_mono(ts, i + 1, ts.len() as int);
    lemma_elems_props(ts, ts.len() as int);
    lemma_align_up(elems_end(ts, ts.len() as int), elems_align(ts, ts.len() as int));
}

/// A case's own measures never exceed the maxima over the first `k` cases.
pub proof fn lemma_case_bounds(cs: Seq<CaseTy>, i: int, k: int)
    requires
        0 <= i < k <= cs.len(),
    ensures
        case_align(cs[i]) <= cases_align(cs, k),
        case_size(cs[i]) <= cases_size(cs, k),
        case_flat(cs[i]) <= cases_flat(cs, k),
    decreases k,
{
    if i < k - 1 {
        lemma_case_bounds(cs, i, k - 1);
    }
}

/// The payload area of a tagged former lies inside its size: the payload
/// offset plus any single case's size stays within the rounded whole.
pub proof fn lemma_payload_in_tagged(d: int, pa: int, ps: int, cs_size: int)
    requires
        d >= 1,
        is_align(pa),
        ps >= 0,
        cs_size >= 0,
        cs_size <= ps,
    ensures
        align_up(d, pa) + cs_size <= tagged_size(d, pa, ps),
        d <= align_up(d, pa),
        align_up(d, pa) % pa == 0,
{
    lemma_align_up(d, pa);
    lemma_align_up(align_up(d, pa) + ps, max(d, pa));
}

/// From the record's own marshallability witnesses, every field is
/// marshallable.
pub proof fn lemma_record_children_ok(fs: Seq<FieldTy>)
    requires
        !any_field_big_flags(fs),
        !any_field_big_count(fs),
        all_fields_fit(fs),
    ensures
        fields_ok(fs),
{
    assert forall|j: int| 0 <= j < fs.len() implies ty_ok(#[trigger] fs[j].ty) by {
        assert(!has_big_flags(fs[j].ty));
        assert(!has_big_count(fs[j].ty));
        assert(sizes_fit(fs[j].ty));
    }
}

/// From the tuple's own marshallability witnesses, every element is
/// marshallable.
pub proof fn lemma_tuple_children_ok(ts: Seq<Ty>)
    requires
        !any_elem_big_flags(ts),
        !any_elem_big_count(ts),
        all_elems_fit(ts),
    ensures
        elems_ok(ts),
{
    assert forall|j: int| 0 <= j < ts.len() implies ty_ok(#[trigger] ts[j]) by {
        assert(!has_big_flags(ts[j]));
        assert(!has_big_count(ts[j]));
        assert(sizes_fit(ts[j]));
    }
}

/// From the variant's own marshallability witnesses, every present payload
/// is marshallable.
pub proof fn lemma_variant_children_ok(cs: Seq<CaseTy>)
    requires
        !any_case_big_flags(cs),
        !any_case_big_count(cs),
        all_cases_fit(cs),
    ensures
        cases_ok(cs),
{
    assert forall|j: int|
        0 <= j < cs.len() implies match #[trigger] cs[j].payload {
        Some(ty) => ty_ok(ty),
        None => true,
    } by {
        match cs[j].payload {
            Some(ty) => {
                assert(!has_big_flags(ty));
                assert(!has_big_count(ty));
                assert(sizes_fit(ty));
            },
            None => {},
        }
    }
}

} // verus!
