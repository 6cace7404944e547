use mojom_parser::{
    bytes_to_align, deparse_struct, pack_mojom_type, pack_struct, parse_struct, MojomError, MojomType,
    MojomValue, MojomWireType, PackedArrayType, PackedLeafType, PackedStructuredType, ParserData,
};

fn unnamed_types(types: Vec<MojomType>) -> Vec<(String, MojomType)> {
    types.into_iter().map(|t| ("".to_string(), t)).collect()
}

fn unnamed_values(values: Vec<MojomValue>) -> Vec<(String, MojomValue)> {
    values.into_iter().map(|v| ("".to_string(), v)).collect()
}

fn bitfield(ordinals: [Option<usize>; 8]) -> (String, MojomWireType) {
    ("".to_string(), MojomWireType::Bitfield { ordinals })
}

fn leaf(ordinal: usize, leaf_type: PackedLeafType) -> (String, MojomWireType) {
    ("".to_string(), MojomWireType::Leaf { ordinal, leaf_type })
}

fn serialize(values: &Vec<(String, MojomValue)>, layout: &Vec<(String, MojomWireType)>) -> Result<Vec<u8>, MojomError> {
    let mut data = Vec::new();
    deparse_struct(&mut data, values, layout)?;
    Ok(data)
}

fn parse(bytes: &[u8], layout: &Vec<(String, MojomWireType)>) -> Result<Vec<(String, MojomValue)>, MojomError> {
    let mut cursor = ParserData::new(bytes);
    parse_struct(&mut cursor, layout)
}

fn ten_bools_and_a_byte_type() -> Vec<(String, MojomType)> {
    unnamed_types(vec![MojomType::Bool, MojomType::Bool, MojomType::Bool, MojomType::Bool, MojomType::Bool, MojomType::UInt8, MojomType::Bool, MojomType::Bool, MojomType::Bool, MojomType::Bool, MojomType::Bool])
}

fn ten_bools_and_a_byte_layout() -> Vec<(String, MojomWireType)> {
    vec![
        bitfield([Some(0), Some(1), Some(2), Some(3), Some(4), Some(6), Some(7), Some(8)]),
        leaf(5, PackedLeafType::UInt8),
        bitfield([Some(9), Some(10), None, None, None, None, None, None]),
    ]
}

fn ten_bools_and_a_byte(b: [bool; 10], byte: u8) -> Vec<(String, MojomValue)> {
    let mut v: Vec<MojomValue> = b[..5].iter().map(|x| MojomValue::Bool(*x)).collect();
    v.push(MojomValue::UInt8(byte));
    v.extend(b[5..].iter().map(|x| MojomValue::Bool(*x)));
    unnamed_values(v)
}

fn ten_bools_and_two_bytes_type() -> Vec<(String, MojomType)> {
    unnamed_types(vec![MojomType::Bool, MojomType::Bool, MojomType::Bool, MojomType::Bool, MojomType::Bool, MojomType::UInt16, MojomType::Bool, MojomType::Bool, MojomType::Bool, MojomType::Bool, MojomType::Bool])
}

fn ten_bools_and_two_bytes_layout() -> Vec<(String, MojomWireType)> {
    vec![
        bitfield([Some(0), Some(1), Some(2), Some(3), Some(4), Some(6), Some(7), Some(8)]),
        bitfield([Some(9), Some(10), None, None, None, None, None, None]),
        leaf(5, PackedLeafType::UInt16),
    ]
}

fn ten_bools_and_two_bytes(b: [bool; 10], word: u16) -> Vec<(String, MojomValue)> {
    let mut v: Vec<MojomValue> = b[..5].iter().map(|x| MojomValue::Bool(*x)).collect();
    v.push(MojomValue::UInt16(word));
    v.extend(b[5..].iter().map(|x| MojomValue::Bool(*x)));
    unnamed_values(v)
}

const ONE_BYTE_DATA: [u8; 16] =
    [0x10, 0x00, 0x00, 0x00, 0x00, 0x00, 0x00, 0x00, 0x87, 0xcd, 0x02, 0x00, 0x00, 0x00, 0x00, 0x00];

const TWO_BYTE_DATA: [u8; 16] =
    [0x10, 0x00, 0x00, 0x00, 0x00, 0x00, 0x00, 0x00, 0xad, 0x03, 0xef, 0xcd, 0x00, 0x00, 0x00, 0x00];

fn one_byte_value() -> Vec<(String, MojomValue)> {
    ten_bools_and_a_byte([true, true, true, false, false, false, false, true, false, true], 0xcd)
}

fn two_byte_value() -> Vec<(String, MojomValue)> {
    ten_bools_and_two_bytes([true, false, true, true, false, true, false, true, true, true], 0xcdef)
}

#[test]
fn test_bools() {
    let one_ty = MojomType::Struct { fields: ten_bools_and_a_byte_type() };
    let two_ty = MojomType::Struct { fields: ten_bools_and_two_bytes_type() };
    assert_eq!(
        pack_mojom_type(&one_ty, 0),
        MojomWireType::Pointer {
            ordinal: 0,
            nested_data_type: PackedStructuredType::Struct { packed_field_types: ten_bools_and_a_byte_layout() },
        }
    );
    assert_eq!(
        pack_mojom_type(&two_ty, 0),
        MojomWireType::Pointer {
            ordinal: 0,
            nested_data_type: PackedStructuredType::Struct { packed_field_types: ten_bools_and_two_bytes_layout() },
        }
    );
    assert_eq!(one_byte_value(), parse(&ONE_BYTE_DATA, &ten_bools_and_a_byte_layout()).unwrap());
    assert_eq!(two_byte_value(), parse(&TWO_BYTE_DATA, &ten_bools_and_two_bytes_layout()).unwrap());
}

#[test]
fn ten_bools_and_a_byte_serializes() {
    let bytes = serialize(&one_byte_value(), &ten_bools_and_a_byte_layout()).unwrap();
    assert_eq!(bytes, ONE_BYTE_DATA.to_vec());
}

#[test]
fn ten_bools_and_two_bytes_serializes() {
    let bytes = serialize(&two_byte_value(), &ten_bools_and_two_bytes_layout()).unwrap();
    assert_eq!(bytes, TWO_BYTE_DATA.to_vec());
}

#[test]
fn ten_bools_and_a_byte_round_trip() {
    let layout = pack_struct(&ten_bools_and_a_byte_type());
    let value = ten_bools_and_a_byte([false, true, false, true, true, true, false, false, true, false], 7);
    let bytes = serialize(&value, &layout).unwrap();
    assert_eq!(parse(&bytes, &layout).unwrap(), value);
}

#[test]
fn integer_struct_layout_and_round_trip() {
    let fields = vec![
        ("a".to_string(), MojomType::UInt32),
        ("b".to_string(), MojomType::UInt8),
        ("c".to_string(), MojomType::UInt16),
    ];
    let layout = pack_struct(&fields);
    assert_eq!(
        layout,
        vec![
            ("a".to_string(), MojomWireType::Leaf { ordinal: 0, leaf_type: PackedLeafType::UInt32 }),
            ("b".to_string(), MojomWireType::Leaf { ordinal: 1, leaf_type: PackedLeafType::UInt8 }),
            ("c".to_string(), MojomWireType::Leaf { ordinal: 2, leaf_type: PackedLeafType::UInt16 }),
        ]
    );
    let value = vec![
        ("a".to_string(), MojomValue::UInt32(1)),
        ("b".to_string(), MojomValue::UInt8(2)),
        ("c".to_string(), MojomValue::UInt16(3)),
    ];
    let bytes = serialize(&value, &layout).unwrap();
    // a at offset 8, b at 12, c aligned to 14.
    assert_eq!(bytes, vec![0x10, 0, 0, 0, 0, 0, 0, 0, 1, 0, 0, 0, 2, 0, 3, 0]);
    assert_eq!(parse(&bytes, &layout).unwrap(), value);
}

#[test]
fn small_field_fills_earlier_hole() {
    // u8, u32, u8: the second byte goes into the hole after the first.
    let layout = pack_struct(&unnamed_types(vec![MojomType::UInt8, MojomType::UInt32, MojomType::UInt8]));
    assert_eq!(
        layout,
        vec![leaf(0, PackedLeafType::UInt8), leaf(2, PackedLeafType::UInt8), leaf(1, PackedLeafType::UInt32)]
    );
}

#[test]
fn nested_struct_round_trip() {
    let fields = vec![
        ("x".to_string(), MojomType::UInt32),
        ("inner".to_string(), MojomType::Struct { fields: vec![("y".to_string(), MojomType::UInt32)] }),
    ];
    let layout = pack_struct(&fields);
    let value = vec![
        ("x".to_string(), MojomValue::UInt32(0x11223344)),
        ("inner".to_string(), MojomValue::Struct(vec![("y".to_string(), MojomValue::UInt32(5))])),
    ];
    let bytes = serialize(&value, &layout).unwrap();
    assert_eq!(
        bytes,
        vec![
            0x18, 0, 0, 0, 0, 0, 0, 0, // outer header: 24 bytes
            0x44, 0x33, 0x22, 0x11, 0, 0, 0, 0, // x and padding
            8, 0, 0, 0, 0, 0, 0, 0, // pointer: the inner block is 8 bytes on
            0x10, 0, 0, 0, 0, 0, 0, 0, // inner header: 16 bytes
            5, 0, 0, 0, 0, 0, 0, 0, // y and padding
        ]
    );
    assert_eq!(parse(&bytes, &layout).unwrap(), value);
}

#[test]
fn truncated_input_is_rejected() {
    let result = parse(&ONE_BYTE_DATA[..15], &ten_bools_and_a_byte_layout());
    assert_eq!(result, Err(MojomError::UnexpectedEndOfInput));
}

#[test]
fn short_size_header_is_rejected() {
    let mut data = ONE_BYTE_DATA;
    data[0] = 0x08;
    let result = parse(&data, &ten_bools_and_a_byte_layout());
    assert_eq!(result, Err(MojomError::HeaderSizeMismatch));
}

#[test]
fn larger_size_header_skips_trailing_bytes() {
    let mut data = ONE_BYTE_DATA.to_vec();
    data[0] = 0x18;
    data.extend([0xff; 8]);
    let layout = ten_bools_and_a_byte_layout();
    let mut cursor = ParserData::new(&data);
    assert_eq!(parse_struct(&mut cursor, &layout).unwrap(), one_byte_value());
    assert_eq!(cursor.bytes_parsed(), 24);
}

#[test]
fn missing_field_is_out_of_range() {
    let layout = vec![leaf(3, PackedLeafType::UInt8)];
    let values = unnamed_values(vec![MojomValue::UInt8(1)]);
    assert_eq!(serialize(&values, &layout), Err(MojomError::OrdinalOutOfRange));
}

#[test]
fn wrong_value_shape_is_a_type_mismatch() {
    let layout = vec![leaf(0, PackedLeafType::UInt8)];
    assert_eq!(serialize(&unnamed_values(vec![MojomValue::Bool(true)]), &layout), Err(MojomError::TypeMismatch));
    let bits = vec![bitfield([Some(0), None, None, None, None, None, None, None])];
    assert_eq!(serialize(&unnamed_values(vec![MojomValue::UInt8(1)]), &bits), Err(MojomError::TypeMismatch));
    let nested = pack_struct(&unnamed_types(vec![MojomType::Struct { fields: vec![] }]));
    assert_eq!(
        serialize(&unnamed_values(vec![MojomValue::Array(vec![])]), &nested),
        Err(MojomError::TypeMismatch)
    );
}

#[test]
fn misplaced_nested_block_is_rejected() {
    let layout = pack_struct(&unnamed_types(vec![MojomType::Struct { fields: unnamed_types(vec![MojomType::UInt8]) }]));
    let value = unnamed_values(vec![MojomValue::Struct(unnamed_values(vec![MojomValue::UInt8(9)]))]);
    let mut bytes = serialize(&value, &layout).unwrap();
    // The pointer now says the block starts 8 bytes later than it does.
    bytes[8] = 16;
    bytes.extend([0u8; 8]);
    assert_eq!(parse(&bytes, &layout), Err(MojomError::PointerOrderOrOffsetMismatch));
}

#[test]
fn pointer_past_the_input_is_rejected() {
    let layout = pack_struct(&unnamed_types(vec![MojomType::Struct { fields: unnamed_types(vec![MojomType::UInt8]) }]));
    let value = unnamed_values(vec![MojomValue::Struct(unnamed_values(vec![MojomValue::UInt8(9)]))]);
    let mut bytes = serialize(&value, &layout).unwrap();
    bytes[15] = 0x80;
    assert_eq!(parse(&bytes, &layout), Err(MojomError::PointerValueOutOfRange));
}

#[test]
fn signed_integers_round_trip() {
    let fields = unnamed_types(vec![MojomType::Int8, MojomType::Int16, MojomType::Int32, MojomType::Int64, MojomType::UInt64]);
    let layout = pack_struct(&fields);
    let value = unnamed_values(vec![
        MojomValue::Int8(-2),
        MojomValue::Int16(-300),
        MojomValue::Int32(i32::MIN),
        MojomValue::Int64(-1),
        MojomValue::UInt64(u64::MAX),
    ]);
    let bytes = serialize(&value, &layout).unwrap();
    assert_eq!(bytes.len() % 8, 0);
    assert_eq!(parse(&bytes, &layout).unwrap(), value);
}

#[test]
fn negative_byte_is_twos_complement() {
    let layout = vec![leaf(0, PackedLeafType::Int8)];
    let bytes = serialize(&unnamed_values(vec![MojomValue::Int8(-1)]), &layout).unwrap();
    assert_eq!(bytes, vec![0x10, 0, 0, 0, 0, 0, 0, 0, 0xff, 0, 0, 0, 0, 0, 0, 0]);
}

#[test]
fn string_round_trip() {
    let fields = vec![("s".to_string(), MojomType::String), ("n".to_string(), MojomType::UInt8)];
    let layout = pack_struct(&fields);
    let value = vec![
        ("s".to_string(), MojomValue::String("héllo".to_string())),
        ("n".to_string(), MojomValue::UInt8(4)),
    ];
    let bytes = serialize(&value, &layout).unwrap();
    // The string's block: a header with 8 + 6 bytes padded to 16, and 6 elements.
    assert_eq!(&bytes[24..32], &[16, 0, 0, 0, 6, 0, 0, 0]);
    assert_eq!(&bytes[32..38], "héllo".as_bytes());
    assert_eq!(parse(&bytes, &layout).unwrap(), value);
}

#[test]
fn byte_array_is_accepted_for_a_string() {
    let layout = pack_struct(&unnamed_types(vec![MojomType::String]));
    let as_bytes = unnamed_values(vec![MojomValue::Array(vec![MojomValue::UInt8(b'h'), MojomValue::UInt8(b'i')])]);
    let as_text = unnamed_values(vec![MojomValue::String("hi".to_string())]);
    assert_eq!(serialize(&as_bytes, &layout), serialize(&as_text, &layout));
    let bytes = serialize(&as_bytes, &layout).unwrap();
    assert_eq!(parse(&bytes, &layout).unwrap(), as_text);
}

#[test]
fn invalid_utf8_is_a_type_mismatch() {
    let layout = pack_struct(&unnamed_types(vec![MojomType::String]));
    let value = unnamed_values(vec![MojomValue::Array(vec![MojomValue::UInt8(0xff)])]);
    let bytes = serialize(&value, &layout).unwrap();
    assert_eq!(parse(&bytes, &layout), Err(MojomError::TypeMismatch));
}

#[test]
fn arrays_round_trip() {
    let fields = unnamed_types(vec![
        MojomType::Array { element_type: Box::new(MojomType::UInt16), num_elements: None },
        MojomType::Array { element_type: Box::new(MojomType::Bool), num_elements: Some(3) },
        MojomType::Array { element_type: Box::new(MojomType::Struct { fields: unnamed_types(vec![MojomType::Int32]) }), num_elements: None },
        MojomType::Array { element_type: Box::new(MojomType::String), num_elements: None },
    ]);
    let layout = pack_struct(&fields);
    let value = unnamed_values(vec![
        MojomValue::Array(vec![MojomValue::UInt16(1), MojomValue::UInt16(2), MojomValue::UInt16(3)]),
        MojomValue::Array(vec![MojomValue::Bool(true), MojomValue::Bool(false), MojomValue::Bool(true)]),
        MojomValue::Array(vec![
            MojomValue::Struct(unnamed_values(vec![MojomValue::Int32(-7)])),
            MojomValue::Struct(unnamed_values(vec![MojomValue::Int32(8)])),
        ]),
        MojomValue::Array(vec![MojomValue::String("a".to_string()), MojomValue::String("".to_string())]),
    ]);
    let bytes = serialize(&value, &layout).unwrap();
    assert_eq!(bytes.len() % 8, 0);
    assert_eq!(parse(&bytes, &layout).unwrap(), value);
}

#[test]
fn unsized_array_bytes() {
    let layout = pack_struct(&unnamed_types(vec![MojomType::Array {
        element_type: Box::new(MojomType::UInt16),
        num_elements: None,
    }]));
    let value = unnamed_values(vec![MojomValue::Array(vec![MojomValue::UInt16(0x0102), MojomValue::UInt16(3)])]);
    let bytes = serialize(&value, &layout).unwrap();
    assert_eq!(
        bytes,
        vec![
            0x10, 0, 0, 0, 0, 0, 0, 0, // struct header
            8, 0, 0, 0, 0, 0, 0, 0, // pointer to the array
            0x10, 0, 0, 0, 2, 0, 0, 0, // array header: 16 bytes, 2 elements
            0x02, 0x01, 3, 0, 0, 0, 0, 0, // elements and padding
        ]
    );
}

#[test]
fn sized_array_length_is_checked() {
    let layout = pack_struct(&unnamed_types(vec![MojomType::Array {
        element_type: Box::new(MojomType::UInt8),
        num_elements: Some(2),
    }]));
    let short = unnamed_values(vec![MojomValue::Array(vec![MojomValue::UInt8(1)])]);
    assert_eq!(serialize(&short, &layout), Err(MojomError::TypeMismatch));
    let unsized_layout = pack_struct(&unnamed_types(vec![MojomType::Array {
        element_type: Box::new(MojomType::UInt8),
        num_elements: None,
    }]));
    let bytes = serialize(&short, &unsized_layout).unwrap();
    assert_eq!(parse(&bytes, &layout), Err(MojomError::TypeMismatch));
}

#[test]
fn string_packs_as_byte_array() {
    assert_eq!(
        pack_mojom_type(&MojomType::String, 3),
        MojomWireType::Pointer {
            ordinal: 3,
            nested_data_type: PackedStructuredType::Array {
                element_type: Box::new(MojomWireType::Leaf { ordinal: 0, leaf_type: PackedLeafType::UInt8 }),
                array_type: PackedArrayType::String,
            },
        }
    );
}

#[test]
fn packing_is_deterministic() {
    let t = MojomType::Struct { fields: ten_bools_and_two_bytes_type() };
    assert_eq!(pack_mojom_type(&t, 0), pack_mojom_type(&t, 0));
}

#[test]
fn up_to_eight_bools_share_one_bitfield() {
    for k in 1..=8 {
        let mut types: Vec<MojomType> = Vec::new();
        for _ in 0..k {
            types.push(MojomType::Bool);
        }
        types.push(MojomType::UInt32);
        let layout = pack_struct(&unnamed_types(types));
        let count = layout.iter().filter(|(_, w)| matches!(w, MojomWireType::Bitfield { .. })).count();
        assert_eq!(count, 1);
    }
}

#[test]
fn bitfield_slots_form_a_prefix() {
    let layout = pack_struct(&ten_bools_and_a_byte_type());
    for (_, w) in layout {
        if let MojomWireType::Bitfield { ordinals } = w {
            let first_empty = ordinals.iter().position(|o| o.is_none()).unwrap_or(8);
            assert!(ordinals[first_empty..].iter().all(|o| o.is_none()));
        }
    }
}

#[test]
fn alignment_gaps() {
    assert_eq!(bytes_to_align(0, 8), 0);
    assert_eq!(bytes_to_align(9, 8), 7);
    assert_eq!(bytes_to_align(10, 4), 2);
    assert_eq!(bytes_to_align(5, 1), 0);
    assert_eq!(MojomWireType::Leaf { ordinal: 0, leaf_type: PackedLeafType::Int16 }.size(), 2);
    assert_eq!(MojomWireType::Bitfield { ordinals: [None; 8] }.alignment(), 1);
}

#[test]
fn header_size_is_inline_length() {
    let layout = pack_struct(&unnamed_types(vec![
        MojomType::UInt8,
        MojomType::Struct { fields: unnamed_types(vec![MojomType::UInt64]) },
    ]));
    let value = unnamed_values(vec![
        MojomValue::UInt8(1),
        MojomValue::Struct(unnamed_values(vec![MojomValue::UInt64(2)])),
    ]);
    let bytes = serialize(&value, &layout).unwrap();
    let size = u32::from_le_bytes([bytes[0], bytes[1], bytes[2], bytes[3]]) as usize;
    assert_eq!(size, 24);
    assert_eq!(bytes.len(), 24 + 16);
    // The pointer at 16 leads to the nested block.
    let offset = u64::from_le_bytes(bytes[16..24].try_into().unwrap()) as usize;
    assert_eq!(16 + offset, 24);
}

#[test]
fn empty_struct_round_trip() {
    let layout = pack_struct(&vec![]);
    assert_eq!(layout, vec![]);
    let bytes = serialize(&vec![], &layout).unwrap();
    assert_eq!(bytes, vec![8, 0, 0, 0, 0, 0, 0, 0]);
    assert_eq!(parse(&bytes, &layout).unwrap(), vec![]);
}

#[test]
fn nested_empty_struct_round_trip() {
    let fields = vec![
        ("e".to_string(), MojomType::Struct { fields: vec![] }),
        ("x".to_string(), MojomType::UInt8),
    ];
    let layout = pack_struct(&fields);
    let value = vec![("e".to_string(), MojomValue::Struct(vec![])), ("x".to_string(), MojomValue::UInt8(3))];
    let bytes = serialize(&value, &layout).unwrap();
    assert_eq!(parse(&bytes, &layout).unwrap(), value);
}

#[test]
fn layout_with_an_unwritten_ordinal_is_rejected() {
    // Ordinal 0 is carried by no element.
    let layout = vec![leaf(1, PackedLeafType::UInt8)];
    let bytes = [0x10, 0, 0, 0, 0, 0, 0, 0, 1, 0, 0, 0, 0, 0, 0, 0];
    assert_eq!(parse(&bytes, &layout), Err(MojomError::OrdinalOutOfRange));
}


#[test]
fn elements_land_on_their_alignment() {
    let layout = pack_struct(&unnamed_types(vec![MojomType::UInt8, MojomType::UInt64, MojomType::Int16]));
    let value = unnamed_values(vec![
        MojomValue::UInt8(0xaa),
        MojomValue::UInt64(0x0102030405060708),
        MojomValue::Int16(-2),
    ]);
    let bytes = serialize(&value, &layout).unwrap();
    // u8 at 8, i16 fills the hole at 10, u64 at 16.
    assert_eq!(
        bytes,
        vec![
            0x18, 0, 0, 0, 0, 0, 0, 0, //
            0xaa, 0, 0xfe, 0xff, 0, 0, 0, 0, //
            8, 7, 6, 5, 4, 3, 2, 1,
        ]
    );
    assert_eq!(parse(&bytes, &layout).unwrap(), value);
}

#[test]
fn highest_possible_ordinal_is_rejected_when_parsing() {
    let layout = vec![leaf(usize::MAX, PackedLeafType::UInt8)];
    let bytes = [0x10, 0, 0, 0, 0, 0, 0, 0, 1, 0, 0, 0, 0, 0, 0, 0];
    assert_eq!(parse(&bytes, &layout), Err(MojomError::OrdinalOutOfRange));
}

#[test]
fn cursor_reads_little_endian() {
    let bytes = [0x01, 0x02, 0x03];
    let mut cursor = ParserData::new(&bytes);
    assert_eq!(cursor.parse_uint(2), Ok(0x0201));
    assert_eq!(cursor.bytes_parsed(), 2);
    assert_eq!(cursor.parse_uint(2), Err(MojomError::UnexpectedEndOfInput));
    assert_eq!(cursor.parse_padding(1), Ok(()));
    assert_eq!(cursor.bytes_parsed(), 3);
}
