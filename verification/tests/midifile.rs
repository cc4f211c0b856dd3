use midi_smf::cursor::ByteCursor;
use midi_smf::event::Event;
use midi_smf::midifile::MidiFile;

#[test]
fn it_works() {
}

#[test]
fn test_file_decode() {
    let mut data = ByteCursor::new(vec![
        0x4D, 0x54, 0x68, 0x64, // "MThd"
        0x00, 0x00, 0x00, 0x06, // header length 6
        0x00, 0x01, // format 1
        0x00, 0x01, // one track
        0x00, 0x60, // division 96
        0x4D, 0x54, 0x72, 0x6B, // "MTrk"
        0x00, 0x00, 0x00, 0x08, // track length 8
        0x00, 0x90, 0x40, 0x50, // dt 0x00: note on
        0x10, 0x80, 0x40, 0x00, // dt 0x10: note off
    ]);

    let file = MidiFile::new(&mut data).unwrap();
    assert_eq!(1, file.format);
    assert_eq!(96, file.division);
    assert_eq!(1, file.tracks.len());
    assert_eq!(2, file.tracks[0].events.len());
    assert_eq!(
        (0x00, Event::Basic { typ: 0x90, channel: 0x00, data1: 0x40, data2: 0x50 }),
        file.tracks[0].events[0]
    );
    assert_eq!(
        (0x10, Event::Basic { typ: 0x80, channel: 0x00, data1: 0x40, data2: 0x00 }),
        file.tracks[0].events[1]
    );
}

#[test]
fn test_header_tag_mismatch() {
    // an input that does not begin with "MThd" fails at the file level
    let mut data = ByteCursor::new(vec![
        0x52, 0x49, 0x46, 0x46, // "RIFF"
        0x00, 0x00, 0x00, 0x06, 0x00, 0x01, 0x00, 0x00, 0x00, 0x60,
    ]);
    assert!(MidiFile::new(&mut data).is_err());
}

#[test]
fn test_file_extra_header_bytes() {
    // a header length of 8 carries two extra bytes, which are skipped
    let mut data = ByteCursor::new(vec![
        0x4D, 0x54, 0x68, 0x64, // "MThd"
        0x00, 0x00, 0x00, 0x08, // header length 8
        0x00, 0x00, // format 0
        0x00, 0x00, // no tracks
        0x01, 0x00, // division 256
        0xAA, 0xBB, // extra header bytes
    ]);
    let file = MidiFile::new(&mut data).unwrap();
    assert_eq!(0, file.format);
    assert_eq!(256, file.division);
    assert!(file.tracks.is_empty());
}

#[test]
fn test_file_header_too_short() {
    // a declared header length below the six mandatory bytes is malformed
    let mut data = ByteCursor::new(vec![
        0x4D, 0x54, 0x68, 0x64, // "MThd"
        0x00, 0x00, 0x00, 0x04, // header length 4
        0x00, 0x00, 0x00, 0x01, 0x00, 0x60,
    ]);
    assert!(MidiFile::new(&mut data).is_err());
}

#[test]
fn test_file_skips_unknown_chunk() {
    // a chunk whose tag is not "MTrk" is skipped verbatim and kept out of
    // the track list
    let mut data = ByteCursor::new(vec![
        0x4D, 0x54, 0x68, 0x64, // "MThd"
        0x00, 0x00, 0x00, 0x06, // header length 6
        0x00, 0x00, // format 0
        0x00, 0x01, // one chunk declared
        0x00, 0x60, // division 96
        0x58, 0x46, 0x49, 0x48, // "XFIH": not a track
        0x00, 0x00, 0x00, 0x03, // three payload bytes
        0x01, 0x02, 0x03,
    ]);
    let file = MidiFile::new(&mut data).unwrap();
    assert!(file.tracks.is_empty());
}

#[test]
fn test_file_truncated() {
    // the same file as test_file_decode with its final byte deleted
    let mut data = ByteCursor::new(vec![
        0x4D, 0x54, 0x68, 0x64, 0x00, 0x00, 0x00, 0x06, 0x00, 0x01, 0x00, 0x01, 0x00, 0x60,
        0x4D, 0x54, 0x72, 0x6B, 0x00, 0x00, 0x00, 0x08, 0x00, 0x90, 0x40, 0x50, 0x10, 0x80,
        0x40,
    ]);
    assert!(MidiFile::new(&mut data).is_err());
}

#[test]
fn test_file_truncated_chunk_header() {
    // the declared second chunk is missing altogether
    let mut data = ByteCursor::new(vec![
        0x4D, 0x54, 0x68, 0x64, 0x00, 0x00, 0x00, 0x06, 0x00, 0x01, 0x00, 0x02, 0x00, 0x60,
        0x4D, 0x54, 0x72, 0x6B, 0x00, 0x00, 0x00, 0x00,
    ]);
    assert!(MidiFile::new(&mut data).is_err());
}
