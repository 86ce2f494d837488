use std::collections::BTreeMap;

use bitspec::assembly::{Assemble, BitOrder, Value};
use bitspec::errors::{CompileError, ReadError, WriteError};
use bitspec::field::{ArraySpec, Field, FieldKind};
use bitspec::fragment::Fragment;
use bitspec::schema::{compile_in_range, Schema, WriteConfig};
use bitspec::value_map::ValueMap;

fn scalar(name: &str, signed: bool, order: BitOrder, fragments: Vec<Fragment>) -> Field {
    Field { name: name.to_string(), kind: FieldKind::Scalar, signed, assemble: Assemble::Concat(order), fragments }
}

fn map_of(entries: Vec<(&str, Value)>) -> ValueMap {
    let mut m = ValueMap::new();
    for (name, value) in entries {
        m.insert(name.to_string(), value);
    }
    m
}

fn sorted(m: ValueMap) -> BTreeMap<String, Value> {
    m.into_entries().into_iter().collect()
}

#[test]
fn readme_roundtrip() {
    let fields = vec![
        scalar("a", false, BitOrder::MsbFirst, vec![Fragment::new(0, 4)]),
        scalar("b", false, BitOrder::MsbFirst, vec![Fragment::new(4, 4)]),
    ];
    let schema = Schema::compile(&fields, None).unwrap();
    let bytes = schema.serialize(&map_of(vec![("a", Value::U64(0b1010)), ("b", Value::U64(0b0101))])).unwrap();
    assert_eq!(bytes, vec![0b1010_0101]);
    let parsed = sorted(schema.parse(&bytes).unwrap());
    assert_eq!(
        parsed,
        BTreeMap::from([("a".to_string(), Value::U64(0b1010)), ("b".to_string(), Value::U64(0b0101))])
    );
}

#[test]
fn dense_roundtrip_with_signed_lsb_and_arrays() {
    // signed 12-bit value split 5 + 7, concatenated LSB first, second fragment stored LSB first
    let t = Field {
        name: "t".to_string(),
        kind: FieldKind::Scalar,
        signed: true,
        assemble: Assemble::Concat(BitOrder::LsbFirst),
        fragments: vec![
            Fragment::new(0, 5),
            Fragment { offset_bits: 5, len_bits: 7, bit_order: BitOrder::LsbFirst },
        ],
    };
    let flags = scalar("flags", false, BitOrder::MsbFirst, vec![Fragment::new(12, 3)]);
    let samples = Field {
        name: "samples".to_string(),
        kind: FieldKind::Array(ArraySpec { count: 3, stride_bits: 6, offset_bits: 15 }),
        signed: true,
        assemble: Assemble::Concat(BitOrder::MsbFirst),
        fragments: vec![Fragment::new(0, 2), Fragment::new(2, 4)],
    };
    let schema = Schema::compile(&[t, flags, samples], Some(WriteConfig { bit_order: BitOrder::MsbFirst })).unwrap();
    let obj = || {
        map_of(vec![
            ("t", Value::I64(-1234)),
            ("flags", Value::U64(5)),
            ("samples", Value::Array(vec![Value::I64(-32), Value::I64(31), Value::I64(0)])),
        ])
    };
    let bytes = schema.serialize(&obj()).unwrap();
    assert_eq!(bytes.len(), 5); // 33 bits
    assert_eq!(sorted(schema.parse(&bytes).unwrap()), sorted(obj()));
}

#[test]
fn parse_refuses_short_input() {
    let fields = vec![scalar("x", false, BitOrder::MsbFirst, vec![Fragment::new(4, 8)])];
    let schema = Schema::compile(&fields, None).unwrap();
    assert_eq!(schema.parse(&[0xFF]).unwrap_err(), ReadError::PacketTooShort);
    assert_eq!(schema.parse(&[0x0A, 0xB0]).unwrap().get("x"), Some(&Value::U64(0xAB)));
}

#[test]
fn duplicate_or_empty_names_are_refused() {
    let fields = vec![
        scalar("x", false, BitOrder::MsbFirst, vec![Fragment::new(0, 4)]),
        scalar("x", true, BitOrder::MsbFirst, vec![Fragment::new(4, 4)]),
    ];
    assert_eq!(Schema::compile(&fields, None).unwrap_err(), CompileError::InvalidFieldName);
    let unnamed = vec![scalar("", false, BitOrder::MsbFirst, vec![Fragment::new(0, 4)])];
    assert_eq!(Schema::compile(&unnamed, None).unwrap_err(), CompileError::InvalidFieldName);
    // the name is checked before the layout of the field
    let both = vec![scalar("", false, BitOrder::MsbFirst, vec![Fragment::new(0, 0)])];
    assert_eq!(Schema::compile(&both, None).unwrap_err(), CompileError::InvalidFieldName);
}

#[test]
fn compile_errors() {
    let frag0 = vec![Fragment::new(0, 0)];
    assert_eq!(
        Schema::compile(&[scalar("z", false, BitOrder::MsbFirst, frag0)], None).unwrap_err(),
        CompileError::InvalidFieldSize
    );
    let with_empty = vec![Fragment::new(0, 4), Fragment::new(4, 0)];
    assert_eq!(
        Schema::compile(&[scalar("z", false, BitOrder::MsbFirst, with_empty)], None).unwrap_err(),
        CompileError::InvalidFragment
    );
    let wide = vec![Fragment::new(0, 60), Fragment::new(60, 5)];
    assert_eq!(
        Schema::compile(&[scalar("z", false, BitOrder::MsbFirst, wide)], None).unwrap_err(),
        CompileError::InvalidFieldSize
    );
    let array = |count: usize, stride_bits: usize| Field {
        name: "arr".to_string(),
        kind: FieldKind::Array(ArraySpec { count, stride_bits, offset_bits: 0 }),
        signed: false,
        assemble: Assemble::Concat(BitOrder::MsbFirst),
        fragments: vec![Fragment::new(0, 8)],
    };
    assert_eq!(Schema::compile(&[array(2, 7)], None).unwrap_err(), CompileError::InvalidArrayStride);
    assert_eq!(Schema::compile(&[array(0, 8)], None).unwrap_err(), CompileError::InvalidArrayCount);
    let no_fragments = |count: usize| Field {
        name: "empty".to_string(),
        kind: FieldKind::Array(ArraySpec { count, stride_bits: 8, offset_bits: 0 }),
        signed: false,
        assemble: Assemble::Concat(BitOrder::MsbFirst),
        fragments: vec![],
    };
    assert_eq!(Schema::compile(&[no_fragments(3)], None).unwrap_err(), CompileError::EmptyArrayElement);
    assert_eq!(Schema::compile(&[no_fragments(0)], None).unwrap_err(), CompileError::EmptyArrayElement);
    // a scalar without fragments has size 0
    assert_eq!(
        Schema::compile(&[scalar("s", false, BitOrder::MsbFirst, vec![])], None).unwrap_err(),
        CompileError::InvalidFieldSize
    );
    // the first failing field decides the error
    assert_eq!(
        Schema::compile(&[array(0, 8), array(2, 7)], None).unwrap_err(),
        CompileError::InvalidArrayCount
    );
}

#[test]
fn serialize_errors() {
    let fields = vec![
        scalar("a", false, BitOrder::MsbFirst, vec![Fragment::new(0, 8)]),
        Field {
            name: "arr".to_string(),
            kind: FieldKind::Array(ArraySpec { count: 2, stride_bits: 8, offset_bits: 8 }),
            signed: false,
            assemble: Assemble::Concat(BitOrder::MsbFirst),
            fragments: vec![Fragment::new(0, 8)],
        },
    ];
    let schema = Schema::compile(&fields, None).unwrap();
    let arr = |vals: Vec<Value>| Value::Array(vals);
    assert_eq!(
        schema.serialize(&map_of(vec![("a", Value::U64(1))])).unwrap_err(),
        WriteError::MissingField("arr".to_string())
    );
    assert_eq!(
        schema.serialize(&map_of(vec![("a", Value::F64(0)), ("arr", arr(vec![]))])).unwrap_err(),
        WriteError::UnsupportedValue { field: "a".to_string(), variant: "F64" }
    );
    assert_eq!(
        schema.serialize(&map_of(vec![("a", arr(vec![])), ("arr", arr(vec![]))])).unwrap_err(),
        WriteError::InvalidValue
    );
    assert_eq!(
        schema.serialize(&map_of(vec![("a", Value::U64(1)), ("arr", Value::U64(2))])).unwrap_err(),
        WriteError::InvalidValue
    );
    assert_eq!(
        schema.serialize(&map_of(vec![("a", Value::U64(1)), ("arr", Value::String("s".to_string()))])).unwrap_err(),
        WriteError::UnsupportedValue { field: "arr".to_string(), variant: "String" }
    );
    // an array of the wrong length is invalid
    assert_eq!(
        schema.serialize(&map_of(vec![("a", Value::U64(1)), ("arr", arr(vec![Value::U64(1)]))])).unwrap_err(),
        WriteError::InvalidValue
    );
    assert_eq!(
        schema
            .serialize(&map_of(vec![("a", Value::U64(1)), ("arr", arr(vec![Value::U64(1), Value::F32(0)]))]))
            .unwrap_err(),
        WriteError::UnsupportedValue { field: "arr".to_string(), variant: "F32" }
    );
    assert_eq!(
        schema
            .serialize(&map_of(vec![("a", Value::U64(1)), ("arr", arr(vec![arr(vec![]), Value::Bytes(vec![])]))]))
            .unwrap_err(),
        WriteError::InvalidValue
    );
    assert_eq!(
        schema.serialize(&map_of(vec![("a", Value::U64(0x1FF)), ("arr", arr(vec![Value::I64(-1), Value::U64(2)]))])),
        Ok(vec![0xFF, 0xFF, 0x02])
    );
}

#[test]
fn serialize_lsb_first_packing() {
    let fields = vec![scalar("a", false, BitOrder::MsbFirst, vec![Fragment::new(0, 3)])];
    let schema = Schema::compile(&fields, Some(WriteConfig { bit_order: BitOrder::LsbFirst })).unwrap();
    assert_eq!(schema.serialize(&map_of(vec![("a", Value::U64(0b110))])), Ok(vec![0b011]));
}

#[test]
fn machine_range_checks() {
    let ok = vec![scalar("a", false, BitOrder::MsbFirst, vec![Fragment::new(0, 8)])];
    assert!(compile_in_range(&ok));
    let past_end = vec![scalar("a", false, BitOrder::MsbFirst, vec![Fragment::new(usize::MAX - 3, 8)])];
    assert!(!compile_in_range(&past_end));
    let huge_total = vec![scalar("a", false, BitOrder::MsbFirst, vec![Fragment::new(0, usize::MAX), Fragment::new(0, 2)])];
    assert!(!compile_in_range(&huge_total));
    // a field that does not compile stops compilation before any later field
    let stops = vec![scalar("z", false, BitOrder::MsbFirst, vec![Fragment::new(0, 0)]), past_end[0].clone()];
    assert!(compile_in_range(&stops));
    assert_eq!(Schema::compile(&stops, None).unwrap_err(), CompileError::InvalidFieldSize);

    let far_element = Field {
        name: "arr".to_string(),
        kind: FieldKind::Array(ArraySpec { count: 2, stride_bits: 8, offset_bits: 0 }),
        signed: false,
        assemble: Assemble::Concat(BitOrder::MsbFirst),
        fragments: vec![Fragment::new(usize::MAX - 4, 8)],
    };
    let schema = Schema::compile(&[far_element], None).unwrap();
    assert!(!schema.is_readable());
    let schema = Schema::compile(&ok, None).unwrap();
    assert!(schema.is_readable());
}

#[test]
fn lsb_packing_mirrors_msb_packing() {
    let fields = vec![
        scalar("a", false, BitOrder::MsbFirst, vec![Fragment::new(0, 5)]),
        scalar("b", true, BitOrder::LsbFirst, vec![Fragment::new(5, 6)]),
    ];
    let msb = Schema::compile(&fields, None).unwrap();
    let lsb = Schema::compile(&fields, Some(WriteConfig { bit_order: BitOrder::LsbFirst })).unwrap();
    let obj = || map_of(vec![("a", Value::U64(0b10110)), ("b", Value::I64(-7))]);
    let m = msb.serialize(&obj()).unwrap();
    let l = lsb.serialize(&obj()).unwrap();
    assert_eq!(l, m.iter().map(|x| x.reverse_bits()).collect::<Vec<u8>>());
    assert_eq!(
        lsb.serialize(&map_of(vec![("a", Value::U64(1))])).unwrap_err(),
        msb.serialize(&map_of(vec![("a", Value::U64(1))])).unwrap_err()
    );
}

#[test]
fn value_map_entries_come_sorted_by_name() {
    let m = map_of(vec![
        ("b", Value::U64(2)),
        ("ab", Value::U64(1)),
        ("é", Value::U64(4)),
        ("Z", Value::U64(0)),
        ("a", Value::U64(9)),
        ("b", Value::U64(3)),
    ]);
    assert_eq!(m.get("b"), Some(&Value::U64(3)));
    assert_eq!(m.get("c"), None);
    let names: Vec<String> = m.into_entries().into_iter().map(|(n, _)| n).collect();
    assert_eq!(names, vec!["Z", "a", "ab", "b", "é"]);
}

#[test]
fn schema_getters() {
    let fields = vec![
        scalar("a", false, BitOrder::MsbFirst, vec![Fragment::new(3, 4)]),
        scalar("b", false, BitOrder::MsbFirst, vec![Fragment::new(0, 2)]),
    ];
    let schema = Schema::compile(&fields, Some(WriteConfig { bit_order: BitOrder::LsbFirst })).unwrap();
    assert_eq!(schema.total_bits(), 7);
    assert_eq!(schema.fields().len(), 2);
    assert_eq!(schema.fields()[1].name, "b");
    assert_eq!(schema.write_config(), Some(WriteConfig { bit_order: BitOrder::LsbFirst }));
}
