use west::error::ErrorKind;
use west::layout::{disc_width, flags_width, layout_of};
use west::lift::{lift, lift_param, lift_params};
use west::lower::{lower, lower_results};
use west::mem::Memory;
use west::resource::ResourceTable;
use west::schema::{CaseTy, FieldTy, Ty};
use west::value::{Token, Value};

fn var_schema() -> Ty {
    Ty::Variant(vec![
        CaseTy { name: String::from("a"), payload: None },
        CaseTy { name: String::from("b"), payload: Some(Ty::U32) },
    ])
}

fn flags_schema() -> Ty {
    Ty::Flags(vec![
        String::from("a"),
        String::from("b"),
        String::from("c"),
        String::from("d"),
    ])
}

#[test]
fn disc_widths_follow_table() {
    assert_eq!(disc_width(1).unwrap(), 1);
    assert_eq!(disc_width(255).unwrap(), 1);
    assert_eq!(disc_width(256).unwrap(), 2);
    assert_eq!(disc_width(65535).unwrap(), 2);
    assert_eq!(disc_width(65536).unwrap(), 4);
    assert_eq!(disc_width(4294967296).unwrap(), 4);
}

#[test]
fn oversized_case_count_is_too_large() {
    let e = disc_width(4294967297).unwrap_err();
    assert_eq!(e.kind, ErrorKind::SchemaTooLarge);
}

#[test]
fn thirty_three_flags_are_unsupported() {
    let names: Vec<String> = (0..33).map(|i| format!("f{i}")).collect();
    let e = layout_of(&Ty::Flags(names)).unwrap_err();
    assert_eq!(e.kind, ErrorKind::UnsupportedSchema);
    assert_eq!(flags_width(33).unwrap_err().kind, ErrorKind::UnsupportedSchema);
}

#[test]
fn flags_widths_follow_table() {
    assert_eq!(flags_width(8).unwrap(), 1);
    assert_eq!(flags_width(9).unwrap(), 2);
    assert_eq!(flags_width(16).unwrap(), 2);
    assert_eq!(flags_width(17).unwrap(), 4);
    assert_eq!(flags_width(32).unwrap(), 4);
}

#[test]
fn primitive_layouts() {
    let l = layout_of(&Ty::Bool).unwrap();
    assert_eq!((l.size, l.align, l.flat), (1, 1, 1));
    let l = layout_of(&Ty::S64).unwrap();
    assert_eq!((l.size, l.align, l.flat), (8, 8, 1));
    let l = layout_of(&Ty::Str).unwrap();
    assert_eq!((l.size, l.align, l.flat), (16, 8, 2));
    let l = layout_of(&var_schema()).unwrap();
    assert_eq!((l.size, l.align, l.flat), (8, 4, 2));
    let l = layout_of(&flags_schema()).unwrap();
    assert_eq!((l.size, l.align, l.flat), (1, 1, 1));
}

#[test]
fn align_divides_size_on_samples() {
    let samples = vec![
        Ty::Bool,
        Ty::U16,
        Ty::Char,
        Ty::Str,
        var_schema(),
        flags_schema(),
        record_schema(),
        Ty::Opt(Box::new(Ty::U32)),
        Ty::Res(Some(Box::new(Ty::U64)), None),
        Ty::Tuple(vec![Ty::U8, Ty::U32, Ty::U8]),
    ];
    for t in &samples {
        let l = layout_of(t).unwrap();
        assert_eq!(l.size % l.align, 0);
    }
}

fn record_schema() -> Ty {
    Ty::Record(vec![
        FieldTy { name: String::from("a"), ty: Ty::U8 },
        FieldTy { name: String::from("b"), ty: Ty::U16 },
        FieldTy { name: String::from("c"), ty: Ty::U32 },
        FieldTy { name: String::from("d"), ty: Ty::S64 },
        FieldTy { name: String::from("e"), ty: Ty::F32 },
        FieldTy { name: String::from("f"), ty: Ty::Bool },
        FieldTy { name: String::from("g"), ty: Ty::Char },
        FieldTy { name: String::from("h"), ty: Ty::Str },
    ])
}

fn record_value() -> Value {
    Value::Record(vec![
        Value::U8(1),
        Value::U16(2),
        Value::U32(3),
        Value::S64(-4),
        Value::F32Bits(5.0f32.to_bits()),
        Value::Bool(true),
        Value::Char('x'),
        Value::Str(String::from("s")),
    ])
}

#[test]
fn record_primitives_round_trip_with_canonical_offsets() {
    let t = record_schema();
    let l = layout_of(&t).unwrap();
    assert_eq!((l.size, l.align), (48, 8));
    let mut m = Memory::zeroed(64);
    let mut tbl = ResourceTable::new();
    let next = lower(&t, &record_value(), &mut m, &mut tbl, 0).unwrap();
    assert_eq!(next, 48);
    // canonical offsets per the padding rule
    assert_eq!(m.read_u8(0), 1);
    assert_eq!(m.read_u16(2), 2);
    assert_eq!(m.read_u32(4), 3);
    assert_eq!(m.read_u64(8), (-4i64) as u64);
    assert_eq!(m.read_u32(16), 5.0f32.to_bits());
    assert_eq!(m.read_u8(20), 1);
    assert_eq!(m.read_u32(24), 'x' as u32);
    // the string pair sits at the 8-byte-aligned tail
    let sptr = m.read_u64(32) as usize;
    assert_eq!(m.read_u64(40), 1);
    assert_eq!(m.read_bytes(sptr, 1), vec![b's']);
    let (v2, next2) = lift(&t, &m, &mut tbl, 0).unwrap();
    assert_eq!(next2, 48);
    assert_eq!(v2, record_value());
}

#[test]
fn identity_bool_buffer() {
    let mut m = Memory::zeroed(8);
    let mut tbl = ResourceTable::new();
    let cells = vec![1u64];
    let (v, next) = lift_param(&Ty::Bool, &cells, &m, &mut tbl, 0).unwrap();
    assert_eq!(next, 1);
    assert_eq!(v, Value::Bool(true));
    lower(&Ty::Bool, &v, &mut m, &mut tbl, 0).unwrap();
    assert_eq!(m.read_u8(0), 0x01);
}

#[test]
fn identity_string_hello() {
    let input = [0x68u8, 0xC3, 0xA9, 0x6C, 0x6C, 0x6F];
    let mut m = Memory::zeroed(64);
    m.write_bytes(0, &input.to_vec());
    let mut tbl = ResourceTable::new();
    let cells = vec![0u64, 6u64];
    let (v, next) = lift_param(&Ty::Str, &cells, &m, &mut tbl, 0).unwrap();
    assert_eq!(next, 2);
    assert_eq!(v, Value::Str(String::from("h\u{e9}llo")));
    // lower the result into a caller buffer at 16
    lower(&Ty::Str, &v, &mut m, &mut tbl, 16).unwrap();
    let new_ptr = m.read_u64(16) as usize;
    assert_eq!(m.read_u64(24), 6);
    assert_eq!(m.read_bytes(new_ptr, 6), input.to_vec());
}

#[test]
fn identity_list_u16() {
    let t = Ty::List(Box::new(Ty::U16));
    let v = Value::List(vec![Value::U16(1), Value::U16(2), Value::U16(3)]);
    let mut m = Memory::zeroed(32);
    let mut tbl = ResourceTable::new();
    lower(&t, &v, &mut m, &mut tbl, 0).unwrap();
    let ptr = m.read_u64(0) as usize;
    let len = m.read_u64(8);
    assert_eq!(len, 3);
    // output allocation is 6 bytes aligned to 2
    assert_eq!(ptr % 2, 0);
    assert_eq!(m.read_u16(ptr), 1);
    assert_eq!(m.read_u16(ptr + 2), 2);
    assert_eq!(m.read_u16(ptr + 4), 3);
    let (v2, _) = lift(&t, &m, &mut tbl, 0).unwrap();
    assert_eq!(v2, v);
}

#[test]
fn identity_variant_case_b() {
    let t = var_schema();
    let v = Value::Variant(String::from("b"), Some(Box::new(Value::U32(42))));
    let mut m = Memory::zeroed(16);
    let mut tbl = ResourceTable::new();
    lower(&t, &v, &mut m, &mut tbl, 0).unwrap();
    assert_eq!(m.read_u8(0), 1); // one-byte discriminant for case b
    assert_eq!(m.read_bytes(4, 4), vec![0x2A, 0x00, 0x00, 0x00]); // padded to 4, LE 42
    let (v2, next) = lift(&t, &m, &mut tbl, 0).unwrap();
    assert_eq!(next, 8);
    assert_eq!(v2, v);
}

#[test]
fn identity_flags_a_c() {
    let t = flags_schema();
    let v = Value::Flags(vec![String::from("a"), String::from("c")]);
    let mut m = Memory::zeroed(4);
    let mut tbl = ResourceTable::new();
    lower(&t, &v, &mut m, &mut tbl, 0).unwrap();
    assert_eq!(m.read_u8(0), 0b0000_0101);
    let (v2, _) = lift(&t, &m, &mut tbl, 0).unwrap();
    assert_eq!(v2, v);
}

#[test]
fn flags_out_of_order_is_type_mismatch() {
    let t = flags_schema();
    let v = Value::Flags(vec![String::from("c"), String::from("a")]);
    let mut m = Memory::zeroed(4);
    let mut tbl = ResourceTable::new();
    let e = lower(&t, &v, &mut m, &mut tbl, 0).unwrap_err();
    assert_eq!(e.kind, ErrorKind::TypeMismatch);
}

#[test]
fn surrogate_char_cell_is_invalid() {
    let m = Memory::zeroed(4);
    let mut tbl = ResourceTable::new();
    let cells = vec![0xD800u64];
    let e = lift_param(&Ty::Char, &cells, &m, &mut tbl, 0).unwrap_err();
    assert_eq!(e.kind, ErrorKind::InvalidChar);
}

#[test]
fn u8_cell_out_of_range() {
    let m = Memory::zeroed(4);
    let mut tbl = ResourceTable::new();
    let cells = vec![0x100u64];
    let e = lift_param(&Ty::U8, &cells, &m, &mut tbl, 0).unwrap_err();
    assert_eq!(e.kind, ErrorKind::IntegerOutOfRange);
}

#[test]
fn option_and_result_round_trip() {
    let t = Ty::Opt(Box::new(Ty::U16));
    let v = Value::Opt(Some(Box::new(Value::U16(7))));
    let mut m = Memory::zeroed(16);
    let mut tbl = ResourceTable::new();
    lower(&t, &v, &mut m, &mut tbl, 0).unwrap();
    assert_eq!(m.read_u8(0), 1);
    assert_eq!(m.read_u16(2), 7);
    let (v2, _) = lift(&t, &m, &mut tbl, 0).unwrap();
    assert_eq!(v2, v);

    let t = Ty::Res(Some(Box::new(Ty::U32)), None);
    let v = Value::Res(Err(None));
    let mut m = Memory::zeroed(16);
    lower(&t, &v, &mut m, &mut tbl, 8).unwrap();
    assert_eq!(m.read_u8(8), 1);
    let (v2, next) = lift(&t, &m, &mut tbl, 8).unwrap();
    assert_eq!(next, 16);
    assert_eq!(v2, v);
}

#[test]
fn enum_round_trip_and_unknown_name() {
    let t = Ty::Enum(vec![String::from("x"), String::from("y")]);
    let v = Value::Enum(String::from("y"));
    let mut m = Memory::zeroed(4);
    let mut tbl = ResourceTable::new();
    lower(&t, &v, &mut m, &mut tbl, 0).unwrap();
    assert_eq!(m.read_u8(0), 1);
    let (v2, _) = lift(&t, &m, &mut tbl, 0).unwrap();
    assert_eq!(v2, v);
    let e = lower(&t, &Value::Enum(String::from("z")), &mut m, &mut tbl, 0).unwrap_err();
    assert_eq!(e.kind, ErrorKind::UnknownDiscriminant);
}

#[test]
fn invalid_utf8_is_strict_error() {
    let t = Ty::Str;
    let mut m = Memory::zeroed(64);
    m.write_bytes(0, &vec![0xFFu8, 0xFE]);
    // plant a (ptr, len) pair at 16 pointing at the invalid bytes
    let mut tbl = ResourceTable::new();
    let cells = vec![0u64, 2u64];
    let e = lift_param(&t, &cells, &m, &mut tbl, 0).unwrap_err();
    assert_eq!(e.kind, ErrorKind::InvalidUtf8);
}

#[test]
fn type_mismatch_is_reported() {
    let mut m = Memory::zeroed(8);
    let mut tbl = ResourceTable::new();
    let e = lower(&Ty::U32, &Value::Bool(true), &mut m, &mut tbl, 0).unwrap_err();
    assert_eq!(e.kind, ErrorKind::TypeMismatch);
}

#[test]
fn nested_error_paths_carry_indices() {
    let t = Ty::List(Box::new(Ty::Char));
    let mut m = Memory::zeroed(32);
    let mut tbl = ResourceTable::new();
    // one valid char cell then lift a list whose element 1 holds a surrogate
    lower(&t, &Value::List(vec![Value::Char('a'), Value::Char('b')]), &mut m, &mut tbl, 0)
        .unwrap();
    let ptr = m.read_u64(0) as usize;
    m.write_u32(ptr + 4, 0xD800);
    let e = lift(&t, &m, &mut tbl, 0).unwrap_err();
    assert_eq!(e.kind, ErrorKind::InvalidChar);
    assert_eq!(e.path, vec![1]);
}

#[test]
fn params_then_results_through_out_pointers() {
    // identity call shape: one u32 parameter, one u32 result whose
    // out-pointer is the cell after the parameters
    let params = vec![Ty::U32];
    let results = vec![Ty::U32];
    let mut m = Memory::zeroed(32);
    let mut tbl = ResourceTable::new();
    let cells = vec![7u64, 16u64];
    let (vals, pos) = lift_params(&params, &cells, &m, &mut tbl, 0).unwrap();
    assert_eq!(pos, 1);
    assert_eq!(vals, vec![Value::U32(7)]);
    lower_results(&vals, &results, &cells, pos, &mut m, &mut tbl).unwrap();
    assert_eq!(m.read_u32(16), 7);
}

#[test]
fn own_handle_round_trips_through_table() {
    let t = Ty::Own(9);
    let tok = Token { id: 77, ty: 9 };
    let mut m = Memory::zeroed(8);
    let mut tbl = ResourceTable::new();
    lower(&t, &Value::Own(tok), &mut m, &mut tbl, 0).unwrap();
    let rep = m.read_u32(0);
    assert_eq!(rep, 0);
    let (v2, _) = lift(&t, &m, &mut tbl, 0).unwrap();
    assert_eq!(v2, Value::Own(tok));
    // the owned lift moved the entry out
    let e = lift(&t, &m, &mut tbl, 0).unwrap_err();
    assert_eq!(e.kind, ErrorKind::ResourceTableMiss);
}

#[test]
fn borrow_handle_reads_without_removing() {
    let t = Ty::Borrow(4);
    let tok = Token { id: 5, ty: 4 };
    let mut m = Memory::zeroed(8);
    let mut tbl = ResourceTable::new();
    lower(&t, &Value::Borrow(tok), &mut m, &mut tbl, 0).unwrap();
    let (v2, _) = lift(&t, &m, &mut tbl, 0).unwrap();
    assert_eq!(v2, Value::Borrow(tok));
    let (v3, _) = lift(&t, &m, &mut tbl, 0).unwrap();
    assert_eq!(v3, Value::Borrow(tok));
}

#[test]
fn resource_type_identity_is_checked() {
    let tok = Token { id: 5, ty: 4 };
    let mut m = Memory::zeroed(8);
    let mut tbl = ResourceTable::new();
    lower(&Ty::Own(4), &Value::Own(tok), &mut m, &mut tbl, 0).unwrap();
    let e = lift(&Ty::Own(5), &m, &mut tbl, 0).unwrap_err();
    assert_eq!(e.kind, ErrorKind::ResourceTypeMismatch);
    let e2 = lower(&Ty::Own(4), &Value::Own(Token { id: 1, ty: 3 }), &mut m, &mut tbl, 4)
        .unwrap_err();
    assert_eq!(e2.kind, ErrorKind::TypeMismatch);
}

#[test]
fn variant_params_always_advance_by_flat_count() {
    // args_of predicts the cells consumed regardless of the case
    let t = var_schema();
    let l = layout_of(&t).unwrap();
    assert_eq!(l.flat, 2);
    let m = Memory::zeroed(4);
    let mut tbl = ResourceTable::new();
    let cells = vec![0u64, 99u64, 5u64];
    let (v, next) = lift_param(&t, &cells, &m, &mut tbl, 0).unwrap();
    assert_eq!(v, Value::Variant(String::from("a"), None));
    assert_eq!(next, 2); // payloadless case still consumes flat cells
    let cells2 = vec![1u64, 99u64, 5u64];
    let (v2, next2) = lift_param(&t, &cells2, &m, &mut tbl, 0).unwrap();
    assert_eq!(v2, Value::Variant(String::from("b"), Some(Box::new(Value::U32(99)))));
    assert_eq!(next2, 2);
}

#[test]
fn empty_string_and_list_store_the_null_pair() {
    let mut m = Memory::zeroed(64);
    let mut tbl = ResourceTable::new();
    lower(&Ty::Str, &Value::Str(String::new()), &mut m, &mut tbl, 0).unwrap();
    assert_eq!(m.read_u64(0), 0);
    assert_eq!(m.read_u64(8), 0);
    let t = Ty::List(Box::new(Ty::U32));
    lower(&t, &Value::List(vec![]), &mut m, &mut tbl, 16).unwrap();
    assert_eq!(m.read_u64(16), 0);
    assert_eq!(m.read_u64(24), 0);
    assert_eq!(m.size(), 64); // nothing was allocated
}

#[test]
fn multi_result_lowering_touches_only_its_windows() {
    // two results in disjoint windows with sentinel bytes between them
    let results = vec![Ty::U16, Ty::U8];
    let mut m = Memory::zeroed(32);
    for a in 0..32usize {
        m.write_u8(a, 0xEE);
    }
    let mut tbl = ResourceTable::new();
    let cells = vec![8u64, 20u64];
    let vals = vec![Value::U16(0x0102), Value::U8(0x7F)];
    lower_results(&vals, &results, &cells, 0, &mut m, &mut tbl).unwrap();
    assert_eq!(m.read_u16(8), 0x0102);
    assert_eq!(m.read_u8(20), 0x7F);
    for a in 0..32usize {
        if a != 8 && a != 9 && a != 20 {
            assert_eq!(m.read_u8(a), 0xEE);
        }
    }
}
