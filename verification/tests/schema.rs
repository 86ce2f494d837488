use std::collections::{BTreeMap, HashMap};

use bitspec::assembly::{Assemble, BitOrder, Value};
use bitspec::errors::ReadError;
use bitspec::field::{ArraySpec, Field, FieldKind};
use bitspec::fragment::Fragment;
use bitspec::schema::Schema;
use bitspec::value_map::ValueMap;

/// The parsed map as an ordered map, for comparison.
fn parsed_map(r: Result<ValueMap, ReadError>) -> Result<BTreeMap<String, Value>, ReadError> {
    r.map(|m| m.into_entries().into_iter().collect())
}

/// A value map holding the entries of `obj`.
fn value_map(obj: HashMap<String, Value>) -> ValueMap {
    let mut m = ValueMap::new();
    for (name, value) in obj {
        m.insert(name, value);
    }
    m
}

#[test]
fn test_get_all_empty() {
    let schema = Schema::compile(&vec![], None).unwrap();
    let data = vec![0x01, 0x02, 0x03, 0x04];
    let result = parsed_map(schema.parse(&data));
    assert_eq!(result, Ok(BTreeMap::new()));
}

#[test]
fn test_get_all_one_field() {
    let field = Field {
        name: "test".to_string(),
        kind: FieldKind::Scalar,
        signed: false,
        assemble: Assemble::Concat(BitOrder::MsbFirst),
        fragments: vec![Fragment {
            offset_bits: 0,
            len_bits: 1,
            ..Default::default()
        }],
    };
    let schema = Schema::compile(&vec![field], None).unwrap();
    let data = vec![0x01, 0x02, 0x03, 0x04];
    let result = parsed_map(schema.parse(&data));
    assert_eq!(
        result,
        Ok(BTreeMap::from([("test".to_string(), Value::U64(0))]))
    );
}

#[test]
fn test_get_multiple_fields() {
    let field1 = Field {
        name: "test1".to_string(),
        kind: FieldKind::Scalar,
        signed: false,
        assemble: Assemble::Concat(BitOrder::MsbFirst),
        fragments: vec![Fragment {
            offset_bits: 0,
            len_bits: 8,
            ..Default::default()
        }],
    };
    let field2 = Field {
        name: "test2".to_string(),
        kind: FieldKind::Scalar,
        signed: false,
        assemble: Assemble::Concat(BitOrder::MsbFirst),
        fragments: vec![Fragment {
            offset_bits: 8,
            len_bits: 16,
            ..Default::default()
        }],
    };
    let schema = Schema::compile(&vec![field1, field2], None).unwrap();
    let data = vec![0x01, 0x00, 0x01, 0x04];
    let result = parsed_map(schema.parse(&data));
    assert_eq!(
        result,
        Ok(BTreeMap::from([
            ("test1".to_string(), Value::U64(1)),
            ("test2".to_string(), Value::U64(1))
        ]))
    );
}

#[test]
fn test_get_all_array() {
    let field = Field {
        name: "test".to_string(),
        kind: FieldKind::Array(ArraySpec {
            count: 4,
            stride_bits: 8,
            offset_bits: 0,
        }),
        signed: false,
        assemble: Assemble::Concat(BitOrder::MsbFirst),
        fragments: vec![Fragment {
            offset_bits: 0,
            len_bits: 8,
            ..Default::default()
        }],
    };

    let schema = Schema::compile(&vec![field], None).unwrap();
    let data = vec![0x01, 0x02, 0x03, 0x04];
    let result = parsed_map(schema.parse(&data));
    assert_eq!(
        result,
        Ok(BTreeMap::from([(
            "test".to_string(),
            Value::Array(vec![
                Value::U64(1),
                Value::U64(2),
                Value::U64(3),
                Value::U64(4)
            ])
        )]))
    );
}

#[test]
fn test_get_all_array_with_stride() {
    let id_field = Field {
        name: "id".to_string(),
        kind: FieldKind::Scalar,
        signed: false,
        assemble: Assemble::Concat(BitOrder::MsbFirst),
        fragments: vec![Fragment {
            offset_bits: 0,
            len_bits: 16,
            ..Default::default()
        }],
    };

    let temperature_field = Field {
        name: "temperature".to_string(),
        kind: FieldKind::Scalar,
        signed: false,
        assemble: Assemble::Concat(BitOrder::MsbFirst),
        fragments: vec![Fragment {
            offset_bits: 16,
            len_bits: 8,
            ..Default::default()
        }],
    };

    let values_field = Field {
        name: "values".to_string(),
        kind: FieldKind::Array(ArraySpec {
            count: 5,
            stride_bits: 8,
            offset_bits: 24,
        }),
        signed: false,
        assemble: Assemble::Concat(BitOrder::MsbFirst),
        fragments: vec![Fragment {
            offset_bits: 0,
            len_bits: 8,
            ..Default::default()
        }],
    };

    let schema =
        Schema::compile(&vec![id_field, temperature_field, values_field], None).unwrap();

    let data = vec![0x01, 0x02, 0x03, 0x04, 0x05, 0x06, 0x07, 0x08];
    let result = parsed_map(schema.parse(&data));
    assert_eq!(
        result,
        Ok(BTreeMap::from([
            ("id".to_string(), Value::U64(258)),
            ("temperature".to_string(), Value::U64(3)),
            (
                "values".to_string(),
                Value::Array(vec![
                    Value::U64(4),
                    Value::U64(5),
                    Value::U64(6),
                    Value::U64(7),
                    Value::U64(8)
                ])
            )
        ]))
    );
}

#[test]
fn test_serialize_single_scalar() {
    let field = Field {
        name: "a".to_string(),
        kind: FieldKind::Scalar,
        signed: false,
        assemble: Assemble::Concat(BitOrder::MsbFirst),
        fragments: vec![Fragment {
            offset_bits: 0,
            len_bits: 8,
            ..Default::default()
        }],
    };

    let schema = Schema::compile(&[field], None).unwrap();

    let obj = HashMap::from([("a".to_string(), Value::U64(0xAB))]);

    let bytes = schema.serialize(&value_map(obj)).unwrap();
    assert_eq!(bytes, vec![0xAB]);
}

#[test]
fn test_serialize_multiple_scalars_linear() {
    let a = Field {
        name: "a".to_string(),
        kind: FieldKind::Scalar,
        signed: false,
        assemble: Assemble::Concat(BitOrder::MsbFirst),
        fragments: vec![Fragment {
            offset_bits: 0,
            len_bits: 4,
            ..Default::default()
        }],
    };

    let b = Field {
        name: "b".to_string(),
        kind: FieldKind::Scalar,
        signed: false,
        assemble: Assemble::Concat(BitOrder::MsbFirst),
        fragments: vec![Fragment {
            offset_bits: 0,
            len_bits: 4,
            ..Default::default()
        }],
    };

    let schema = Schema::compile(&[a, b], None).unwrap();

    let obj = HashMap::from([
        ("a".to_string(), Value::U64(0b1010)),
        ("b".to_string(), Value::U64(0b0101)),
    ]);

    let bytes = schema.serialize(&value_map(obj)).unwrap();
    assert_eq!(bytes, vec![0b1010_0101]);
}

#[test]
fn test_serialize_non_sequential_fragments() {
    let field = Field {
        name: "x".to_string(),
        kind: FieldKind::Scalar,
        signed: false,
        assemble: Assemble::Concat(BitOrder::MsbFirst),
        fragments: vec![
            Fragment {
                offset_bits: 4,
                len_bits: 2,
                ..Default::default()
            },
            Fragment {
                offset_bits: 0,
                len_bits: 2,
                ..Default::default()
            },
        ],
    };

    let schema = Schema::compile(&[field], None).unwrap();

    // value = 0b1101
    let obj = HashMap::from([("x".to_string(), Value::U64(0b1101))]);

    // take bits [4..6] then [0..2] → 11 01
    let bytes = schema.serialize(&value_map(obj)).unwrap();
    assert_eq!(bytes, vec![0b1101_0000]);
}

#[test]
fn test_serialize_array_dense() {
    let field = Field {
        name: "arr".to_string(),
        kind: FieldKind::Array(ArraySpec {
            count: 3,
            stride_bits: 8,
            offset_bits: 0, // irrelevant for serialize
        }),
        signed: false,
        assemble: Assemble::Concat(BitOrder::MsbFirst),
        fragments: vec![Fragment {
            offset_bits: 0,
            len_bits: 8,
            ..Default::default()
        }],
    };

    let schema = Schema::compile(&[field], None).unwrap();

    let obj = HashMap::from([(
        "arr".to_string(),
        Value::Array(vec![Value::U64(1), Value::U64(2), Value::U64(3)]),
    )]);

    let bytes = schema.serialize(&value_map(obj)).unwrap();
    assert_eq!(bytes, vec![1, 2, 3]);
}

#[test]
fn test_serialize_parse_roundtrip_dense() {
    let field = Field {
        name: "x".to_string(),
        kind: FieldKind::Scalar,
        signed: false,
        assemble: Assemble::Concat(BitOrder::MsbFirst),
        fragments: vec![Fragment {
            offset_bits: 0,
            len_bits: 8,
            ..Default::default()
        }],
    };

    let schema = Schema::compile(&[field], None).unwrap();

    let obj = HashMap::from([("x".to_string(), Value::U64(42))]);

    let bytes = schema.serialize(&value_map(obj)).unwrap();
    let parsed = schema.parse(&bytes).unwrap();

    assert_eq!(parsed.get("x"), Some(&Value::U64(42)));
}
