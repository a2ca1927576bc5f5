use savegame_reader::base_readers::{read_conv, read_gamma};
use savegame_reader::common::{has_bit, has_bit_checked, LoadError};
use savegame_reader::save_file::DebugSaveFile;

fn gamma_of(bytes: Vec<u8>) -> u64 {
    let mut reader = DebugSaveFile::new_from_decoded(bytes);
    read_gamma(&mut reader).unwrap()
}

#[test]
fn base_readers_test_has_bit() {
    assert_eq!(has_bit(0b1000_0000, 7), true);
    assert_eq!(has_bit(0b0100_0000, 6), true);
    assert_eq!(has_bit(0b0010_0000, 5), true);
    assert_eq!(has_bit(0b0001_0000, 4), true);
    assert_eq!(has_bit(0b0000_1000, 3), true);
    assert_eq!(has_bit(0b1111_0000, 3), false);
}

#[test]
fn common_test_has_bit() {
    assert_eq!(has_bit(0b1000_0000, 7), true);
    assert_eq!(has_bit(0b0100_0000, 6), true);
    assert_eq!(has_bit(0b0010_0000, 5), true);
    assert_eq!(has_bit(0b0001_0000, 4), true);
    assert_eq!(has_bit(0b0000_1000, 3), true);
    assert_eq!(has_bit(0b1111_0000, 3), false);
}

#[test]
fn test_read_gamma() {
    assert_eq!(gamma_of(vec![0b01000000]), 64);
    assert_eq!(gamma_of(vec![0b10100000, 0b00000000]), 8192);
    assert_eq!(gamma_of(vec![0b11010000, 0b00000000, 0b00000000]), 1048576);
    assert_eq!(
        gamma_of(vec![0b11101000, 0b00000000, 0b00000000, 0b00000000]),
        134217728
    );
    assert_eq!(
        gamma_of(vec![0b11101000, 0b10000000, 0b10000000, 0b10000000]),
        142639232
    );
}

#[test]
fn has_bit_checked_rejects_wide_positions() {
    assert_eq!(has_bit_checked(0b1000_0000, 7), Some(true));
    assert_eq!(has_bit_checked(0b1111_0000, 3), Some(false));
    assert_eq!(has_bit_checked(u64::MAX, 63), Some(true));
    assert_eq!(has_bit_checked(u64::MAX, 64), None);
    assert_eq!(has_bit_checked(0, 255), None);
}

#[test]
fn gamma_fifth_escape_is_malformed() {
    let mut reader = DebugSaveFile::new_from_decoded(vec![0b1111_1000, 0, 0, 0, 0]);
    assert_eq!(read_gamma(&mut reader), Err(LoadError::MalformedGamma));
    let mut reader = DebugSaveFile::new_from_decoded(vec![0xff, 0, 0, 0, 0]);
    assert_eq!(read_gamma(&mut reader), Err(LoadError::MalformedGamma));
}

#[test]
fn gamma_truncated_extension_fails() {
    let mut reader = DebugSaveFile::new_from_decoded(vec![0b1010_0000]);
    assert_eq!(read_gamma(&mut reader), Err(LoadError::UnexpectedEnd));
    let mut reader = DebugSaveFile::new_from_decoded(vec![]);
    assert_eq!(read_gamma(&mut reader), Err(LoadError::UnexpectedEnd));
}

#[test]
fn gamma_four_extension_bytes_max_value() {
    assert_eq!(
        gamma_of(vec![0b1111_0111, 0xff, 0xff, 0xff, 0xff]),
        0x7_ffff_ffff
    );
}

#[test]
fn read_conv_consumes_one_byte() {
    let mut reader = DebugSaveFile::new_from_decoded(vec![0xaa, 0x40]);
    read_conv(&mut reader).unwrap();
    assert_eq!(read_gamma(&mut reader).unwrap(), 64);
    assert_eq!(read_conv(&mut reader), Err(LoadError::UnexpectedEnd));
}
