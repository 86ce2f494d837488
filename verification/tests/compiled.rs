use bitspec::assembly::{Assemble, BitOrder, Value};
use bitspec::compiled::CompiledScalar;
use bitspec::field::{Field, FieldKind};
use bitspec::fragment::Fragment;

#[test]
fn test_assemble_field() {
    let data = [0b11_000001, 0b10000_101];

    let id_field = Field {
        name: "id".to_string(),
        kind: FieldKind::Scalar,
        signed: false,
        assemble: Assemble::Concat(BitOrder::MsbFirst),
        fragments: vec![Fragment {
            offset_bits: 0,
            len_bits: 2,
            ..Default::default()
        }],
    };

    let value_field = Field {
        name: "value".to_string(),
        kind: FieldKind::Scalar,
        signed: false,
        assemble: Assemble::Concat(BitOrder::MsbFirst),
        fragments: vec![Fragment {
            offset_bits: 2,
            len_bits: 11,
            ..Default::default()
        }],
    };

    let crc_field = Field {
        name: "crc".to_string(),
        kind: FieldKind::Scalar,
        signed: false,
        assemble: Assemble::Concat(BitOrder::MsbFirst),
        fragments: vec![Fragment {
            offset_bits: 13,
            len_bits: 3,
            ..Default::default()
        }],
    };

    let compiled_id_field = CompiledScalar::try_from(&id_field).unwrap();
    let compiled_value_field = CompiledScalar::try_from(&value_field).unwrap();
    let compiled_crc_field = CompiledScalar::try_from(&crc_field).unwrap();

    let id = compiled_id_field.assemble(&data).unwrap();
    let value = compiled_value_field.assemble(&data).unwrap();
    let crc = compiled_crc_field.assemble(&data).unwrap();

    assert_eq!(id, Value::U64(3));
    assert_eq!(value, Value::U64(48));
    assert_eq!(crc, Value::U64(5));
}

#[test]
fn test_non_consecutive_fragments() {
    let data: [u8; 4] = [0b00000001, 0b00000010, 0b00000100, 0b00001000];

    let first_value_field = Field {
        name: "first_value".to_string(),
        kind: FieldKind::Scalar,
        signed: false,
        assemble: Assemble::Concat(BitOrder::MsbFirst),
        fragments: vec![
            Fragment {
                offset_bits: 0,
                len_bits: 8,
                ..Default::default()
            },
            Fragment {
                offset_bits: 16,
                len_bits: 8,
                ..Default::default()
            },
        ],
    };

    let second_value_field = Field {
        name: "second_value".to_string(),
        kind: FieldKind::Scalar,
        signed: false,
        assemble: Assemble::Concat(BitOrder::MsbFirst),
        fragments: vec![
            Fragment {
                offset_bits: 8,
                len_bits: 8,
                ..Default::default()
            },
            Fragment {
                offset_bits: 24,
                len_bits: 8,
                ..Default::default()
            },
        ],
    };

    let compiled_first_value_field = CompiledScalar::try_from(&first_value_field).unwrap();
    let compiled_second_value_field = CompiledScalar::try_from(&second_value_field).unwrap();

    let first_value = compiled_first_value_field.assemble(&data).unwrap();
    assert_eq!(first_value, Value::U64(0b00000001_00000100));

    let second_value = compiled_second_value_field.assemble(&data).unwrap();
    assert_eq!(second_value, Value::U64(0b00000010_00001000));
}

#[test]
fn test_assemble_concat_lsb() {
    let data: [u8; 2] = [0b00001001, 0b00001100];

    let value_field = Field {
        name: "value".to_string(),
        kind: FieldKind::Scalar,
        signed: false,
        assemble: Assemble::Concat(BitOrder::LsbFirst),
        fragments: vec![
            Fragment {
                offset_bits: 4,
                len_bits: 4,
                ..Default::default()
            },
            Fragment {
                offset_bits: 12,
                len_bits: 4,
                ..Default::default()
            },
        ],
    };

    let compiled_value_field = CompiledScalar::try_from(&value_field).unwrap();
    let value = compiled_value_field.assemble(&data).unwrap();
    assert_eq!(value, Value::U64(0b11001001));
}

#[test]
fn compile_scalar_concat_msb_shifts() {
    let field = Field {
        name: "x".to_string(),
        kind: FieldKind::Scalar,
        signed: false,
        assemble: Assemble::Concat(BitOrder::MsbFirst),
        fragments: vec![
            Fragment {
                offset_bits: 0,
                len_bits: 3,
                ..Default::default()
            },
            Fragment {
                offset_bits: 5,
                len_bits: 5,
                ..Default::default()
            },
        ],
    };

    let compiled = CompiledScalar::try_from(&field).unwrap();

    // total_bits = 8
    assert_eq!(compiled.fragments[0].shift, 5);
    assert_eq!(compiled.fragments[1].shift, 0);
}

#[test]
fn compile_scalar_concat_lsb_shifts() {
    let field = Field {
        name: "x".to_string(),
        kind: FieldKind::Scalar,
        signed: false,
        assemble: Assemble::Concat(BitOrder::LsbFirst),
        fragments: vec![
            Fragment {
                offset_bits: 0,
                len_bits: 3,
                ..Default::default()
            },
            Fragment {
                offset_bits: 5,
                len_bits: 5,
                ..Default::default()
            },
        ],
    };

    let compiled = CompiledScalar::try_from(&field).unwrap();

    assert_eq!(compiled.fragments[0].shift, 0);
    assert_eq!(compiled.fragments[1].shift, 3);
}
