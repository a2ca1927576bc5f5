use savegame_reader::common::LoadError;
use savegame_reader::loader::{
    chunk_id_from_bytes, chunk_name_of, load_file, skip_bytes, ChunkType, CUSTOM_DATA_CHUNK_ID,
};
use savegame_reader::save_file::{DebugSaveFile, SaveFile};
use savegame_reader::table_reader::{
    ParsedField, ParsedFieldContent, ParsedFieldData, TableItem,
};

fn scalar(key: &str, content: ParsedFieldContent) -> ParsedField {
    ParsedField {
        key: key.to_string(),
        data: ParsedFieldData::Scalar(content),
    }
}

#[test]
fn load_single_table_chunk() {
    let bytes = vec![
        b'T', b'E', b'S', b'T', // chunk id
        0x03, // chunk type: table
        0x01, // schema block length (discarded beyond the zero check)
        0x02, 0x01, b'x', 0x00, // schema: one U8 field "x"
        0x02, 42, // record of one byte
        0x00, // table terminator
        0x00, 0x00, 0x00, 0x00, // stream terminator id
    ];
    let mut reader = DebugSaveFile::new_from_decoded(bytes);
    let chunks = load_file(&mut reader).unwrap();
    assert_eq!(chunks.len(), 1);
    assert_eq!(chunks[0].id, 0x5445_5354);
    assert_eq!(
        chunks[0].items,
        vec![TableItem(vec![scalar("x", ParsedFieldContent::U8(42))])]
    );
}

#[test]
fn load_sparse_table_chunk() {
    let bytes = vec![
        b'T', b'E', b'S', b'T', 0x04, // sparse table
        0x01, 0x02, 0x01, b'x', 0x00, // schema
        0x02, 0x00, 9, // record with index 0
        0x02, 0x05, 8, // record with index 5
        0x00, 0x00, 0x00, 0x00, 0x00, // table terminator, then stream terminator
    ];
    let mut reader = DebugSaveFile::new_from_decoded(bytes);
    let chunks = load_file(&mut reader).unwrap();
    assert_eq!(chunks.len(), 1);
    assert_eq!(
        chunks[0].items,
        vec![
            TableItem(vec![scalar("x", ParsedFieldContent::U8(9))]),
            TableItem(vec![scalar("x", ParsedFieldContent::U8(8))]),
        ]
    );
}

#[test]
fn load_skips_opaque_chunk() {
    let bytes = vec![
        b'M', b'A', b'P', b'T', 0x00, // opaque chunk
        0x00, 0x00, 0x02, // 3-byte big-endian length: 2
        0xaa, 0xbb, // opaque payload
        0x00, 0x00, 0x00, 0x00, // stream terminator
    ];
    let mut reader = DebugSaveFile::new_from_decoded(bytes);
    let chunks = load_file(&mut reader).unwrap();
    assert!(chunks.is_empty());
}

#[test]
fn custom_data_chunk_gets_synthetic_field() {
    let bytes = vec![
        b'G', b'S', b'D', b'T', 0x03, // the one patched chunk id
        0x01, 0x02, 0x01, b'x', 0x00, // schema: one U8 field "x"
        0x03, 42, 1, // record: declared field plus the synthetic flag byte
        0x00, 0x00, 0x00, 0x00, 0x00,
    ];
    assert_eq!(chunk_id_from_bytes(b"GSDT"), CUSTOM_DATA_CHUNK_ID);
    let mut reader = DebugSaveFile::new_from_decoded(bytes);
    let chunks = load_file(&mut reader).unwrap();
    assert_eq!(
        chunks[0].items,
        vec![TableItem(vec![
            scalar("x", ParsedFieldContent::U8(42)),
            scalar("hasCustomData", ParsedFieldContent::U8(1)),
        ])]
    );
}

#[test]
fn array_chunk_kind_fails_distinctly() {
    let bytes = vec![b'T', b'E', b'S', b'T', 0x01, 0xaa, 0xbb];
    let mut reader = DebugSaveFile::new_from_decoded(bytes);
    assert_eq!(
        load_file(&mut reader),
        Err(LoadError::UnimplementedChunkKind(1))
    );
    let bytes = vec![b'T', b'E', b'S', b'T', 0x02, 0xaa, 0xbb];
    let mut reader = DebugSaveFile::new_from_decoded(bytes);
    assert_eq!(
        load_file(&mut reader),
        Err(LoadError::UnimplementedChunkKind(2))
    );
}

#[test]
fn unknown_chunk_kind_fails() {
    let bytes = vec![b'T', b'E', b'S', b'T', 0x07];
    let mut reader = DebugSaveFile::new_from_decoded(bytes);
    assert_eq!(load_file(&mut reader), Err(LoadError::UnknownChunkKind(7)));
}

#[test]
fn zero_length_schema_block_fails() {
    let bytes = vec![b'T', b'E', b'S', b'T', 0x03, 0x00];
    let mut reader = DebugSaveFile::new_from_decoded(bytes);
    assert_eq!(
        load_file(&mut reader),
        Err(LoadError::ZeroLengthSchemaBlock)
    );
}

#[test]
fn truncated_stream_fails() {
    let mut reader = DebugSaveFile::new_from_decoded(vec![b'T', b'E']);
    assert_eq!(load_file(&mut reader), Err(LoadError::UnexpectedEnd));
}

#[test]
fn two_chunks_in_wire_order() {
    let bytes = vec![
        b'A', b'A', b'A', b'A', 0x03, 0x01, 0x02, 0x01, b'x', 0x00, 0x02, 1, 0x00, // first
        b'B', b'B', b'B', b'B', 0x03, 0x01, 0x02, 0x01, b'y', 0x00, 0x02, 2, 0x00, // second
        0x00, 0x00, 0x00, 0x00,
    ];
    let mut reader = DebugSaveFile::new_from_decoded(bytes);
    let chunks = load_file(&mut reader).unwrap();
    assert_eq!(chunks.len(), 2);
    assert_eq!(chunks[0].id, 0x4141_4141);
    assert_eq!(chunks[1].id, 0x4242_4242);
}

#[test]
fn chunk_type_dispatch() {
    let mut reader = DebugSaveFile::new_from_decoded(vec![0x03, 0x04, 0x00]);
    let t = ChunkType::read_from(&mut reader).unwrap();
    assert_eq!(t, ChunkType::Table);
    assert!(t.has_table_header());
    let t = ChunkType::read_from(&mut reader).unwrap();
    assert_eq!(t, ChunkType::SparseTable);
    assert!(t.has_table_header());
    let t = ChunkType::read_from(&mut reader).unwrap();
    assert_eq!(t, ChunkType::Riff);
    assert!(!t.has_table_header());
}

#[test]
fn skip_bytes_consumes_exactly() {
    let mut reader = DebugSaveFile::new_from_decoded(vec![1, 2, 3]);
    skip_bytes(&mut reader, 2).unwrap();
    assert_eq!(reader.read_u8().unwrap(), 3);
    let mut reader = DebugSaveFile::new_from_decoded(vec![1]);
    assert_eq!(skip_bytes(&mut reader, 2), Err(LoadError::UnexpectedEnd));
}

#[test]
fn chunk_names_for_diagnostics() {
    assert_eq!(chunk_name_of(chunk_id_from_bytes(b"LGRP")), Some("Link graphs"));
    assert_eq!(chunk_name_of(chunk_id_from_bytes(b"AIPL")), Some("AI companies"));
    assert_eq!(chunk_name_of(chunk_id_from_bytes(b"GSDT")), Some("Game script configs"));
    assert_eq!(chunk_name_of(chunk_id_from_bytes(b"ZZZZ")), None);
}

#[test]
fn chunk_id_is_big_endian() {
    assert_eq!(chunk_id_from_bytes(b"TEST"), 0x5445_5354);
    assert_eq!(chunk_id_from_bytes(&[0, 0, 0, 0]), 0);
}
