use savegame_reader::common::LoadError;
use savegame_reader::save_file::DebugSaveFile;
use savegame_reader::table_reader::{
    read_table_header, DataType, Field, ParsedField, ParsedFieldContent, ParsedFieldData,
    TableItem, VarType,
};

fn u8_field(key: &str) -> Field {
    Field {
        key: key.to_string(),
        var_type: VarType::Scalar(DataType::U8),
        children: None,
    }
}

fn scalar(key: &str, content: ParsedFieldContent) -> ParsedField {
    ParsedField {
        key: key.to_string(),
        data: ParsedFieldData::Scalar(content),
    }
}

#[test]
fn flat_schema_single_field() {
    let bytes = vec![0x02, 0x01, b'x', 0x00];
    let mut reader = DebugSaveFile::new_from_decoded(bytes);
    let fields = read_table_header(&mut reader).unwrap();
    assert_eq!(fields.len(), 1);
    assert_eq!(fields[0].key, "x");
    assert_eq!(fields[0].var_type, VarType::Scalar(DataType::U8));
    assert!(fields[0].children.is_none());
}

#[test]
fn empty_schema_is_legal() {
    let mut reader = DebugSaveFile::new_from_decoded(vec![0x00]);
    let fields = read_table_header(&mut reader).unwrap();
    assert!(fields.is_empty());
}

#[test]
fn unknown_type_tag_is_rejected() {
    let mut reader = DebugSaveFile::new_from_decoded(vec![0x0f, 0x01, b'x', 0x00]);
    assert_eq!(
        read_table_header(&mut reader),
        Err(LoadError::UnknownTypeTag(0x0f))
    );
}

#[test]
fn struct_schema_two_blocks_back_to_back() {
    // Outer flat list: one struct field "inner"; then the nested flat list
    // for it: one byte field "x". The blocks are concatenated, not nested.
    let bytes = vec![
        0x0b, 0x05, b'i', b'n', b'n', b'e', b'r', 0x00, 0x02, 0x01, b'x', 0x00,
    ];
    let mut reader = DebugSaveFile::new_from_decoded(bytes);
    let fields = read_table_header(&mut reader).unwrap();
    assert_eq!(fields.len(), 1);
    assert_eq!(fields[0].key, "inner");
    assert_eq!(fields[0].var_type, VarType::Scalar(DataType::Struct));
    let children = fields[0].children.as_ref().unwrap();
    assert_eq!(children.len(), 1);
    assert_eq!(children[0].key, "x");
    assert_eq!(children[0].var_type, VarType::Scalar(DataType::U8));
}

#[test]
fn struct_record_decodes_nested() {
    let bytes = vec![
        0x0b, 0x05, b'i', b'n', b'n', b'e', b'r', 0x00, 0x02, 0x01, b'x', 0x00, 0x2a,
    ];
    let mut reader = DebugSaveFile::new_from_decoded(bytes);
    let fields = read_table_header(&mut reader).unwrap();
    let parsed = fields[0].parse_from(&mut reader).unwrap();
    let expected = ParsedField {
        key: "inner".to_string(),
        data: ParsedFieldData::Scalar(ParsedFieldContent::Struct(TableItem(vec![scalar(
            "x",
            ParsedFieldContent::U8(42),
        )]))),
    };
    assert_eq!(parsed, expected);
}

#[test]
fn scalar_widths_and_signedness() {
    let schema = vec![
        Field {
            key: "a".to_string(),
            var_type: VarType::Scalar(DataType::I8),
            children: None,
        },
        Field {
            key: "b".to_string(),
            var_type: VarType::Scalar(DataType::U16),
            children: None,
        },
        Field {
            key: "c".to_string(),
            var_type: VarType::Scalar(DataType::I16),
            children: None,
        },
        Field {
            key: "d".to_string(),
            var_type: VarType::Scalar(DataType::U32),
            children: None,
        },
        Field {
            key: "e".to_string(),
            var_type: VarType::Scalar(DataType::I64),
            children: None,
        },
        Field {
            key: "f".to_string(),
            var_type: VarType::Scalar(DataType::StringId),
            children: None,
        },
    ];
    let bytes = vec![
        0xff, // a: -1
        0x12, 0x34, // b: 0x1234
        0x80, 0x00, // c: -32768
        0xde, 0xad, 0xbe, 0xef, // d
        0xff, 0xff, 0xff, 0xff, 0xff, 0xff, 0xff, 0xfe, // e: -2
        0x00, 0x2a, // f: raw index 42
    ];
    let mut reader = DebugSaveFile::new_from_decoded(bytes);
    let mut parsed = Vec::new();
    for field in &schema {
        parsed.push(field.parse_from(&mut reader).unwrap());
    }
    assert_eq!(parsed[0], scalar("a", ParsedFieldContent::I8(-1)));
    assert_eq!(parsed[1], scalar("b", ParsedFieldContent::U16(0x1234)));
    assert_eq!(parsed[2], scalar("c", ParsedFieldContent::I16(-32768)));
    assert_eq!(parsed[3], scalar("d", ParsedFieldContent::U32(0xdead_beef)));
    assert_eq!(parsed[4], scalar("e", ParsedFieldContent::I64(-2)));
    assert_eq!(parsed[5], scalar("f", ParsedFieldContent::StringId(42)));
}

#[test]
fn list_of_scalars() {
    let field = Field {
        key: "xs".to_string(),
        var_type: VarType::List(DataType::U8),
        children: None,
    };
    let mut reader = DebugSaveFile::new_from_decoded(vec![0x03, 1, 2, 3]);
    let parsed = field.parse_from(&mut reader).unwrap();
    let expected = ParsedField {
        key: "xs".to_string(),
        data: ParsedFieldData::List(vec![
            ParsedFieldContent::U8(1),
            ParsedFieldContent::U8(2),
            ParsedFieldContent::U8(3),
        ]),
    };
    assert_eq!(parsed, expected);
}

#[test]
fn list_of_string_packs_one_string() {
    // The declared count is the byte length of a single packed string, not
    // an element count.
    let field = Field {
        key: "name".to_string(),
        var_type: VarType::List(DataType::String),
        children: None,
    };
    let mut reader = DebugSaveFile::new_from_decoded(vec![0x03, b'a', b'b', b'c']);
    let parsed = field.parse_from(&mut reader).unwrap();
    let expected = ParsedField {
        key: "name".to_string(),
        data: ParsedFieldData::List(vec![ParsedFieldContent::String("abc".to_string())]),
    };
    assert_eq!(parsed, expected);
}

#[test]
fn empty_string_list_stays_empty() {
    let field = Field {
        key: "name".to_string(),
        var_type: VarType::List(DataType::String),
        children: None,
    };
    let mut reader = DebugSaveFile::new_from_decoded(vec![0x00]);
    let parsed = field.parse_from(&mut reader).unwrap();
    assert_eq!(
        parsed,
        ParsedField {
            key: "name".to_string(),
            data: ParsedFieldData::List(vec![]),
        }
    );
}

#[test]
fn list_of_structs() {
    let field = Field {
        key: "rows".to_string(),
        var_type: VarType::List(DataType::Struct),
        children: Some(vec![u8_field("x")]),
    };
    let mut reader = DebugSaveFile::new_from_decoded(vec![0x02, 5, 6]);
    let parsed = field.parse_from(&mut reader).unwrap();
    let expected = ParsedField {
        key: "rows".to_string(),
        data: ParsedFieldData::List(vec![
            ParsedFieldContent::Struct(TableItem(vec![scalar("x", ParsedFieldContent::U8(5))])),
            ParsedFieldContent::Struct(TableItem(vec![scalar("x", ParsedFieldContent::U8(6))])),
        ]),
    };
    assert_eq!(parsed, expected);
}

#[test]
fn bare_scalar_string_is_unsupported() {
    let field = Field {
        key: "s".to_string(),
        var_type: VarType::Scalar(DataType::String),
        children: None,
    };
    let mut reader = DebugSaveFile::new_from_decoded(vec![0x01, b'a']);
    assert_eq!(
        field.parse_from(&mut reader),
        Err(LoadError::UnsupportedScalarTag)
    );
}

#[test]
fn new_custom_data_shape() {
    let field = Field::new_custom_data();
    assert_eq!(field.key, "hasCustomData");
    assert_eq!(field.var_type, VarType::Scalar(DataType::U8));
    assert!(field.children.is_none());
}

#[test]
fn var_type_from_byte() {
    assert_eq!(VarType::from_byte(0x00).unwrap(), None);
    // Low four bits zero is the terminator even with the list bit set.
    assert_eq!(VarType::from_byte(0x10).unwrap(), None);
    assert_eq!(
        VarType::from_byte(0x02).unwrap(),
        Some(VarType::Scalar(DataType::U8))
    );
    assert_eq!(
        VarType::from_byte(0x1a).unwrap(),
        Some(VarType::List(DataType::String))
    );
    assert_eq!(VarType::from_byte(0x0d), Err(LoadError::UnknownTypeTag(13)));
    assert_eq!(DataType::from_byte(11).unwrap(), DataType::Struct);
    assert_eq!(
        VarType::List(DataType::String).data_type(),
        DataType::String
    );
}
