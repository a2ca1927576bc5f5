use savegame_reader::base_readers::{read_be, read_str};
use savegame_reader::common::{u64_to_decimal, LoadError};
use savegame_reader::save_file::{DebugSaveFile, SaveFile};

#[test]
fn read_str_ascii() {
    let mut reader = DebugSaveFile::new_from_decoded(vec![0x05, b'h', b'e', b'l', b'l', b'o']);
    assert_eq!(read_str(&mut reader).unwrap(), "hello");
}

#[test]
fn read_str_multibyte_utf8() {
    // "é" is two bytes on the wire but one character.
    let mut reader = DebugSaveFile::new_from_decoded(vec![0x02, 0xc3, 0xa9]);
    assert_eq!(read_str(&mut reader).unwrap(), "\u{e9}");
}

#[test]
fn read_str_invalid_utf8() {
    let mut reader = DebugSaveFile::new_from_decoded(vec![0x02, 0xff, 0xfe]);
    assert_eq!(read_str(&mut reader), Err(LoadError::InvalidUtf8));
}

#[test]
fn read_str_short_payload() {
    let mut reader = DebugSaveFile::new_from_decoded(vec![0x05, b'h', b'i']);
    assert_eq!(read_str(&mut reader), Err(LoadError::UnexpectedEnd));
}

#[test]
fn read_be_widths() {
    let mut reader = DebugSaveFile::new_from_decoded(vec![0x12, 0x34, 0x56, 0x78]);
    assert_eq!(read_be(&mut reader, 4).unwrap(), 0x1234_5678);
    let mut reader = DebugSaveFile::new_from_decoded(vec![0xff, 0x01]);
    assert_eq!(read_be(&mut reader, 2).unwrap(), 0xff01);
    let mut reader = DebugSaveFile::new_from_decoded(vec![0x01]);
    assert_eq!(read_be(&mut reader, 2), Err(LoadError::UnexpectedEnd));
}

#[test]
fn debug_info_reports_position() {
    let mut reader = DebugSaveFile::new_from_decoded(vec![1, 2, 3]);
    assert_eq!(reader.debug_info(), "Current position: 0");
    assert_eq!(SaveFile::debug_info(&mut reader), "Position in file: 0");
}

#[test]
fn decimal_rendering() {
    assert_eq!(u64_to_decimal(0), "0");
    assert_eq!(u64_to_decimal(7), "7");
    assert_eq!(u64_to_decimal(12345), "12345");
    assert_eq!(u64_to_decimal(18446744073709551615), "18446744073709551615");
}

#[test]
fn read_exact_through_trait() {
    let mut reader = DebugSaveFile::new_from_decoded(vec![9, 8, 7]);
    assert_eq!(reader.read_exact(2).unwrap(), vec![9, 8]);
    assert_eq!(reader.read_u8().unwrap(), 7);
    assert_eq!(reader.read_u8(), Err(LoadError::UnexpectedEnd));
}
