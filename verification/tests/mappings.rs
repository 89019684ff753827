use midi_perform::midi::{MidiError, MidiNote};
use midi_perform::notemappings::{Event, KbdKey, NoteMapping, NoteMappings};

fn note(v: u8) -> MidiNote {
    MidiNote::new(v).unwrap()
}

#[test]
fn add_then_find() {
    let mut table = NoteMappings::new();
    let mut m = NoteMapping::new(note(60), 0, None);
    m.on = NoteMapping::down_event('t', None, None);
    m.off = NoteMapping::up_event('t', None, None);
    table.add(m);
    let found = table.find(note(60), 0, None).unwrap();
    assert_eq!(found.on, vec![Event::NoteMod(None), Event::KeyDown(KbdKey::Layout('t'))]);
    assert_eq!(found.off, vec![Event::KeyUp(KbdKey::Layout('t'))]);
}

#[test]
fn find_misses_on_any_field() {
    let mut table = NoteMappings::new();
    table.add(NoteMapping::new(note(60), 0, None));
    assert!(table.find(note(61), 0, None).is_none());
    assert!(table.find(note(60), 1, None).is_none());
    assert!(table.find(note(60), 0, Some("piano".to_string())).is_none());
}

#[test]
fn find_matches_instrument_names() {
    let mut table = NoteMappings::new();
    table.add(NoteMapping::new(note(60), 0, Some("piano".to_string())));
    assert!(table.find(note(60), 0, Some("piano".to_string())).is_some());
    assert!(table.find(note(60), 0, Some("organ".to_string())).is_none());
    assert!(table.find(note(60), 0, None).is_none());
}

#[test]
fn lookup_is_first_match() {
    let mut table = NoteMappings::new();
    let mut first = NoteMapping::new(note(60), 0, None);
    first.on = NoteMapping::down_event('a', None, None);
    let mut second = NoteMapping::new(note(60), 0, None);
    second.on = NoteMapping::down_event('b', None, None);
    table.add(first);
    table.add(second);
    let found = table.find(note(60), 0, None).unwrap();
    assert_eq!(found.on, vec![Event::NoteMod(None), Event::KeyDown(KbdKey::Layout('a'))]);
}

#[test]
fn down_event_declares_modifier_then_key() {
    let on = NoteMapping::down_event('q', Some(KbdKey::Control), Some(150));
    assert_eq!(
        on,
        vec![
            Event::NoteMod(Some(KbdKey::Control)),
            Event::KeyDown(KbdKey::Layout('q')),
        ]
    );
}

#[test]
fn up_event_releases_the_key() {
    let off = NoteMapping::up_event('q', Some(KbdKey::Control), Some(150));
    assert_eq!(off, vec![Event::KeyUp(KbdKey::Layout('q'))]);
}

#[test]
fn import_line_adds_a_mapping() {
    let mut table = NoteMappings::new();
    assert_eq!(table.import_line("c3 0 a b"), Ok(true));
    let found = table.find(note(48), 0, None).unwrap();
    assert_eq!(found.on, vec![Event::NoteMod(None), Event::KeyDown(KbdKey::Layout('a'))]);
    assert_eq!(found.off, vec![Event::KeyUp(KbdKey::Layout('b'))]);
}

#[test]
fn import_line_accepts_plus_channel() {
    let mut table = NoteMappings::new();
    assert_eq!(table.import_line("cs4 +9 x y"), Ok(true));
    assert!(table.find(note(61), 9, None).is_some());
}

#[test]
fn import_line_skips_wrong_field_counts() {
    let mut table = NoteMappings::new();
    assert_eq!(table.import_line("c3 0 a"), Ok(false));
    assert_eq!(table.import_line("c3 0 a b c"), Ok(false));
    assert_eq!(table.import_line(""), Ok(false));
    assert!(table.mappings.is_empty());
}

#[test]
fn import_line_rejects_bad_fields() {
    let mut table = NoteMappings::new();
    assert_eq!(table.import_line("zz 0 a b"), Err(MidiError::Unparseable));
    assert_eq!(table.import_line("c3 x a b"), Err(MidiError::Unparseable));
    assert_eq!(table.import_line("c3 256 a b"), Err(MidiError::Unparseable));
    assert_eq!(table.import_line("c3 0  b"), Err(MidiError::Unparseable));
    assert!(table.mappings.is_empty());
}
