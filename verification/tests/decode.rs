use midi_perform::midi::{MidiError, MidiEvent, MidiMessage, MidiNote};

#[test]
fn note_on_decodes() {
    let msg = MidiMessage::new(&[0x90, 60, 100]).unwrap();
    assert_eq!(*msg.event(), MidiEvent::NoteOn);
    assert_eq!(msg.channel(), 0);
    assert_eq!(msg.note().index(), 60);
    assert_eq!(msg.velocity, 100);
}

#[test]
fn note_off_decodes() {
    let msg = MidiMessage::new(&[0x83, 64, 30]).unwrap();
    assert_eq!(*msg.event(), MidiEvent::NoteOff);
    assert_eq!(msg.channel(), 3);
    assert_eq!(msg.note().index(), 64);
    assert_eq!(msg.velocity, 30);
}

#[test]
fn velocity_zero_note_on_is_note_off() {
    for note in 0u8..=127 {
        let msg = MidiMessage::new(&[0x90, note, 0]).unwrap();
        assert_eq!(*msg.event(), MidiEvent::NoteOff);
    }
}

#[test]
fn short_messages_are_too_short() {
    assert!(matches!(MidiMessage::new(&[0x90, 60]), Err(MidiError::TooShort)));
    assert!(matches!(MidiMessage::new(&[0x80]), Err(MidiError::TooShort)));
}

#[test]
fn other_status_bytes_are_unimplemented() {
    assert!(matches!(MidiMessage::new(&[0xB0, 1, 2]), Err(MidiError::Unimplemented(0xB0))));
    assert!(matches!(MidiMessage::new(&[0xC5]), Err(MidiError::Unimplemented(0xC5))));
    assert!(matches!(MidiMessage::new(&[0x00, 0, 0]), Err(MidiError::Unimplemented(0x00))));
}

#[test]
fn note_and_velocity_are_masked_to_seven_bits() {
    let msg = MidiMessage::new(&[0x91, 0xC8, 0xFF]).unwrap();
    assert_eq!(msg.channel(), 1);
    assert_eq!(msg.note().index(), 0x48);
    assert_eq!(msg.velocity, 0x7F);
}

#[test]
fn note_new_round_trips_every_value() {
    for b in 0u8..=127 {
        assert_eq!(MidiNote::new(b).unwrap().index(), b);
    }
}

#[test]
fn note_new_rejects_out_of_range() {
    assert!(matches!(MidiNote::new(128), Err(MidiError::NoteOutOfRange)));
    assert!(matches!(MidiNote::new(255), Err(MidiError::NoteOutOfRange)));
}

#[test]
fn note_names_parse() {
    assert_eq!(MidiNote::new_from_text("c3").unwrap().index(), 48);
    assert_eq!(MidiNote::new_from_text("C3").unwrap().index(), 48);
    assert_eq!(MidiNote::new_from_text("cs4").unwrap().index(), 61);
    assert_eq!(MidiNote::new_from_text("Fs4").unwrap().index(), 66);
    assert_eq!(MidiNote::new_from_text("cn").unwrap().index(), 0);
    assert_eq!(MidiNote::new_from_text("csn").unwrap().index(), 1);
    assert_eq!(MidiNote::new_from_text("an").unwrap().index(), 9);
    assert_eq!(MidiNote::new_from_text("asn").unwrap().index(), 10);
    assert_eq!(MidiNote::new_from_text("fn").unwrap().index(), 5);
    assert_eq!(MidiNote::new_from_text("g9").unwrap().index(), 127);
    assert_eq!(MidiNote::new_from_text("A4").unwrap().index(), 69);
}

#[test]
fn note_names_match_by_prefix() {
    assert_eq!(MidiNote::new_from_text("c3 and trailing text").unwrap().index(), 48);
    assert_eq!(MidiNote::new_from_text("ds2x").unwrap().index(), 39);
}

#[test]
fn bad_note_names_are_unparseable() {
    for txt in ["", "c", "#c3", "h3", "gs9", "a9", "b9", "es2", "bs2", "cs", "c-1", "3c", " c3"] {
        assert!(
            matches!(MidiNote::new_from_text(txt), Err(MidiError::Unparseable)),
            "expected Unparseable for {:?}",
            txt
        );
    }
}
