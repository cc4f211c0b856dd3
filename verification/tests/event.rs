use midi_smf::cursor::ByteCursor;
use midi_smf::event::Event;

#[test]
fn test_basic() {
    let mut data = ByteCursor::new(vec![0x91, 0x05, 0x7F]);
    let evt = Event::parse(&mut data).unwrap();

    if let Event::Basic { typ, channel, data1, data2 } = evt {
        assert_eq!(0x90, typ);
        assert_eq!(0x01, channel);
        assert_eq!(0x05, data1);
        assert_eq!(0x7F, data2);
    } else {
        assert!(false, "Incorrect event type");
    }

    assert!(Event::parse(&mut data).is_err(), "Ensure parsing consumed the entire iterator");
}

#[test]
fn test_sysex() {
    let mut data = ByteCursor::new(vec![0xF0, 0x03, 0x12, 0x34, 0x56, 0xF7, 0x00]);
    let evt1 = Event::parse(&mut data).unwrap();
    let evt2 = Event::parse(&mut data).unwrap();

    if let Event::Sysex { typ, data: d } = evt1 {
        assert_eq!(0xF0, typ, "Sysex event type 1");
        assert_eq!(vec![0x12, 0x34, 0x56], d);
    } else {
        assert!(false, "Incorrect event type");
    }

    if let Event::Sysex { typ, data: d } = evt2 {
        assert_eq!(0xF7, typ, "Sysex event type 2");
        assert_eq!(Vec::new() as Vec<u8>, d);
    } else {
        assert!(false, "Incorrect event type");
    }

    assert!(Event::parse(&mut data).is_err(), "Ensure parsing consumed the entire iterator");
}

#[test]
fn test_meta() {
    let mut data = ByteCursor::new(vec![0xFF, 0x01, 0x03, 0xAB, 0xCD, 0xEF]);
    let evt = Event::parse(&mut data).unwrap();

    if let Event::Meta { typ, data } = evt {
        assert_eq!(0x01, typ);
        assert_eq!(vec![0xAB, 0xCD, 0xEF], data);
    } else {
        assert!(false, "Incorrect event type");
    }
}

#[test]
fn test_meta_empty_payload() {
    let mut data = ByteCursor::new(vec![0xFF, 0x2F, 0x00]);
    let evt = Event::parse(&mut data).unwrap();
    assert_eq!(Event::Meta { typ: 0x2F, data: vec![] }, evt);
    assert!(Event::parse(&mut data).is_err());
}

#[test]
fn test_truncated_event_fails() {
    // a sysex event that announces three payload bytes but carries two
    let mut data = ByteCursor::new(vec![0xF0, 0x03, 0x12, 0x34]);
    assert!(Event::parse(&mut data).is_err());

    // a basic event missing its second data byte
    let mut data = ByteCursor::new(vec![0x91, 0x05]);
    assert!(Event::parse(&mut data).is_err());

    // a meta event cut off right after its type byte
    let mut data = ByteCursor::new(vec![0xFF, 0x01]);
    assert!(Event::parse(&mut data).is_err());
}
