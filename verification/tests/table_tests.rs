use savegame_reader::common::LoadError;
use savegame_reader::save_file::{DebugSaveFile, SaveFile};
use savegame_reader::table_reader::{
    read_sparse_table, read_table, DataType, Field, ParsedField, ParsedFieldContent,
    ParsedFieldData, TableItem, VarType,
};

fn u8_schema() -> Vec<Field> {
    vec![Field {
        key: "x".to_string(),
        var_type: VarType::Scalar(DataType::U8),
        children: None,
    }]
}

fn u8_row(value: u8) -> TableItem {
    TableItem(vec![ParsedField {
        key: "x".to_string(),
        data: ParsedFieldData::Scalar(ParsedFieldContent::U8(value)),
    }])
}

#[test]
fn dense_table_two_records_consumes_terminator() {
    // [gamma(size+1), <size bytes>, gamma(size2+1), <size2 bytes>, 0x00],
    // with a sentinel byte after the terminator to show it was consumed.
    let bytes = vec![0x02, 42, 0x02, 7, 0x00, 0x99];
    let mut reader = DebugSaveFile::new_from_decoded(bytes);
    let items = read_table(&mut reader, u8_schema()).unwrap();
    assert_eq!(items, vec![u8_row(42), u8_row(7)]);
    assert_eq!(reader.read_u8().unwrap(), 0x99);
}

#[test]
fn dense_table_empty() {
    let mut reader = DebugSaveFile::new_from_decoded(vec![0x00]);
    let items = read_table(&mut reader, u8_schema()).unwrap();
    assert!(items.is_empty());
}

#[test]
fn dense_table_missing_terminator() {
    let mut reader = DebugSaveFile::new_from_decoded(vec![0x02, 42]);
    assert_eq!(
        read_table(&mut reader, u8_schema()),
        Err(LoadError::UnexpectedEnd)
    );
}

#[test]
fn sparse_table_preserves_gapped_records() {
    // Records with explicit indices 0 and 5: the gap needs no fillers.
    let bytes = vec![0x02, 0x00, 42, 0x02, 0x05, 7, 0x00];
    let mut reader = DebugSaveFile::new_from_decoded(bytes);
    let items = read_sparse_table(&mut reader, u8_schema()).unwrap();
    assert_eq!(items, vec![u8_row(42), u8_row(7)]);
}

#[test]
fn sparse_table_consumes_terminator() {
    let bytes = vec![0x02, 0x00, 1, 0x00, 0x77];
    let mut reader = DebugSaveFile::new_from_decoded(bytes);
    let items = read_sparse_table(&mut reader, u8_schema()).unwrap();
    assert_eq!(items, vec![u8_row(1)]);
    assert_eq!(reader.read_u8().unwrap(), 0x77);
}

#[test]
fn sparse_table_missing_index() {
    let mut reader = DebugSaveFile::new_from_decoded(vec![0x02]);
    assert_eq!(
        read_sparse_table(&mut reader, u8_schema()),
        Err(LoadError::UnexpectedEnd)
    );
}
