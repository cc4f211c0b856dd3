use midi_smf::cursor::ByteCursor;
use midi_smf::errors::DecodeError;
use midi_smf::utils::check_header;
use midi_smf::utils::next_u16;
use midi_smf::utils::next_u32;
use midi_smf::utils::read_header;
use midi_smf::utils::read_varlen;
use midi_smf::utils::try_read_varlen;

#[test]
fn test_check_header() {
    let mut data1 = ByteCursor::new(vec![0x4d, 0x54, 0x68, 0x64]); // MThd
    assert!(check_header(&mut data1, "MThd").unwrap());

    let mut data2 = ByteCursor::new(vec![0x4d, 0x00, 0x68, 0x64]); // M<nul>hd
    assert!(!check_header(&mut data2, "MThd").unwrap());
}

#[test]
fn test_read_header() {
    let mut data = ByteCursor::new(vec![0x4D, 0x54, 0x68, 0x64, 0x4D, 0x54, 0x72, 0x6B]); // MThdMTrk
    assert_eq!("MThd", read_header(&mut data).unwrap());
    assert_eq!("MTrk", read_header(&mut data).unwrap());
}

#[test]
fn test_read_varlen() {
    let mut data = ByteCursor::new(vec![0b10000001, 0b10000001, 0b00000001]);
    let val = read_varlen(&mut data).unwrap();

    assert_eq!(0b100000010000001, val);
}

#[test]
fn test_varlen_bounds() {
    // one byte: the smallest encoding
    let mut data = ByteCursor::new(vec![0x00]);
    assert_eq!(0, read_varlen(&mut data).unwrap());

    // four bytes: the largest value of a legal encoding
    let mut data = ByteCursor::new(vec![0xFF, 0xFF, 0xFF, 0x7F]);
    assert_eq!(0x0FFF_FFFF, read_varlen(&mut data).unwrap());
}

#[test]
fn test_varlen_truncated() {
    // every byte still has its continuation bit set: a mid-quantity end
    let mut data = ByteCursor::new(vec![0x81, 0x81]);
    assert_eq!(DecodeError::BrokenFileFormat, read_varlen(&mut data).unwrap_err());
}

#[test]
fn test_try_read_varlen_empty() {
    // a cleanly exhausted cursor is no error, just the exhaustion signal
    let mut data = ByteCursor::new(vec![]);
    assert_eq!(None, try_read_varlen(&mut data).unwrap());
}

#[test]
fn test_fixed_width_reads() {
    let mut data = ByteCursor::new(vec![0x12, 0x34, 0xAB, 0xCD, 0xEF, 0x01]);
    assert_eq!(0x1234, next_u16(&mut data).unwrap());
    assert_eq!(0xABCD_EF01, next_u32(&mut data).unwrap());

    let mut short = ByteCursor::new(vec![0x12]);
    assert_eq!(DecodeError::BrokenFileFormat, next_u16(&mut short).unwrap_err());

    let mut short = ByteCursor::new(vec![0x12, 0x34, 0x56]);
    assert_eq!(DecodeError::BrokenFileFormat, next_u32(&mut short).unwrap_err());
}
