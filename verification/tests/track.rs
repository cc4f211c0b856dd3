use midi_smf::cursor::ByteCursor;
use midi_smf::event::Event;
use midi_smf::track::Track;

#[test]
fn test_track_parsing() {
    let mut data = ByteCursor::new(vec![
        0x00, 0x90, 0x40, 0x50, // dt 0x00: note on; key: 0x40, vel: 0x50
        0x10, 0x80, 0x40, 0x00, // dt 0x10: note off; key: 0x40, vel: 0x00
        0xFF, 0x7F, 0xF0, 0x05, 0x68, 0x65, 0x6C, 0x6C, 0x6F, // dt 0x3FFF: 0xF0 sysex; data: "hello"
    ]);

    let trk = Track::new(&mut data).unwrap();

    assert_eq!(
        (0x00, Event::Basic { typ: 0x90, channel: 0x00, data1: 0x40, data2: 0x50 }),
        trk.events[0]
    );

    assert_eq!(
        (0x10, Event::Basic { typ: 0x80, channel: 0x00, data1: 0x40, data2: 0x00 }),
        trk.events[1]
    );

    assert_eq!(
        (0x3FFF, Event::Sysex { typ: 0xF0, data: vec![0x68, 0x65, 0x6C, 0x6C, 0x6F] }),
        trk.events[2]
    );
}

#[test]
fn test_track_empty() {
    let mut data = ByteCursor::new(vec![]);
    let trk = Track::new(&mut data).unwrap();
    assert!(trk.events.is_empty());
}

#[test]
fn test_track_truncated() {
    // a delta-time followed by an incomplete event is a hard error
    let mut data = ByteCursor::new(vec![0x00, 0x90, 0x40]);
    assert!(Track::new(&mut data).is_err());

    // likewise a track whose final byte was deleted
    let mut data = ByteCursor::new(vec![0x00, 0x90, 0x40, 0x50, 0x10, 0x80, 0x40]);
    assert!(Track::new(&mut data).is_err());
}
