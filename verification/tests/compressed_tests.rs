use std::io::Read;

use savegame_reader::common::LoadError;
use savegame_reader::header::{SaveFileFormat, SaveFileHeader};
use savegame_reader::loader::load_file;
use savegame_reader::save_file::{CompressedSaveFile, DebugSaveFile, SaveFile};

fn xz_compress(data: &[u8]) -> Vec<u8> {
    let mut encoder = xz2::read::XzEncoder::new(data, 6);
    let mut out = Vec::new();
    encoder.read_to_end(&mut out).unwrap();
    out
}

fn compressed_file(version: u16, payload: &[u8]) -> Vec<u8> {
    let mut raw = b"OTTX".to_vec();
    raw.extend_from_slice(&version.to_be_bytes());
    raw.extend_from_slice(&[0, 0]);
    raw.extend_from_slice(&xz_compress(payload));
    raw
}

#[test]
fn compressed_round_trip() {
    let payload = vec![0x40, 0x41, 0x42, 0x43];
    let raw = compressed_file(7, &payload);
    let mut file = CompressedSaveFile::new(&raw).unwrap();
    assert_eq!(file.version, 7);
    assert_eq!(file.read_exact(4).unwrap(), payload);
    assert_eq!(file.read_u8(), Err(LoadError::UnexpectedEnd));
}

#[test]
fn compressed_load_whole_stream() {
    let payload = vec![
        b'T', b'E', b'S', b'T', 0x03, 0x01, 0x02, 0x01, b'x', 0x00, 0x02, 42, 0x00, 0x00, 0x00,
        0x00, 0x00,
    ];
    let raw = compressed_file(300, &payload);
    let mut file = CompressedSaveFile::new(&raw).unwrap();
    assert_eq!(file.version, 300);
    let chunks = load_file(&mut file).unwrap();
    assert_eq!(chunks.len(), 1);
    assert_eq!(chunks[0].id, 0x5445_5354);
}

#[test]
fn compressed_rejects_legacy_formats() {
    let mut raw = b"OTTD".to_vec();
    raw.extend_from_slice(&[0, 7, 0, 0, 1, 2, 3]);
    assert_eq!(
        CompressedSaveFile::new(&raw).err().unwrap(),
        LoadError::UnsupportedFormat
    );
}

#[test]
fn compressed_rejects_corrupt_payload() {
    let mut raw = b"OTTX".to_vec();
    raw.extend_from_slice(&[0, 7, 0, 0, 1, 2, 3]);
    assert_eq!(
        CompressedSaveFile::new(&raw).err().unwrap(),
        LoadError::DecompressionFailed
    );
}

#[test]
fn compressed_rejects_short_input() {
    assert_eq!(
        CompressedSaveFile::new(b"OTTX").err().unwrap(),
        LoadError::UnexpectedEnd
    );
}

#[test]
fn compressed_debug_info() {
    let raw = compressed_file(1, &[]);
    let mut file = CompressedSaveFile::new(&raw).unwrap();
    assert_eq!(file.debug_info(), "No debug info available");
}

#[test]
fn format_from_bytes() {
    assert_eq!(
        SaveFileFormat::from_bytes(b"OTTD").unwrap(),
        SaveFileFormat::Lzo
    );
    assert_eq!(
        SaveFileFormat::from_bytes(b"OTTZ").unwrap(),
        SaveFileFormat::Zlib
    );
    assert_eq!(
        SaveFileFormat::from_bytes(b"OTTX").unwrap(),
        SaveFileFormat::Lzma
    );
    assert_eq!(
        SaveFileFormat::from_bytes(b"ABCD").unwrap(),
        SaveFileFormat::Unknown("ABCD".to_string())
    );
    assert_eq!(
        SaveFileFormat::from_bytes(&[0xff, 0xfe, 0x00, 0x01]),
        Err(LoadError::InvalidUtf8)
    );
}

#[test]
fn header_read_from() {
    let bytes = vec![b'O', b'T', b'T', b'X', 0x01, 0x2c, 0xaa, 0xbb, 0x99];
    let mut reader = DebugSaveFile::new_from_decoded(bytes);
    let header = SaveFileHeader::read_from(&mut reader).unwrap();
    assert_eq!(header.format, SaveFileFormat::Lzma);
    assert_eq!(header.version, 300);
    // The two unused bytes are consumed.
    assert_eq!(reader.read_u8().unwrap(), 0x99);
}

#[test]
fn get_decoder_round_trip() {
    let payload = b"schema and records".to_vec();
    let compressed = xz_compress(&payload);
    let decoded = SaveFileFormat::Lzma.get_decoder(&compressed).unwrap();
    assert_eq!(decoded, payload);
    assert_eq!(
        SaveFileFormat::Zlib.get_decoder(&compressed),
        Err(LoadError::UnsupportedFormat)
    );
}
