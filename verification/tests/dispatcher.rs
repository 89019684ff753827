use midi_perform::dispatch::{
    DispatchOutcome, OCTAVE_DELAY_MS, dispatch, generate_old_mappings, run_sequence,
};
use midi_perform::keydriver::{KeyAction, KeyGen};
use midi_perform::midi::MidiNote;
use midi_perform::notemappings::{Event, KbdKey, NoteMapping, NoteMappings};

fn note(v: u8) -> MidiNote {
    MidiNote::new(v).unwrap()
}

fn table_for_t() -> NoteMappings {
    let mut table = NoteMappings::new();
    let mut m = NoteMapping::new(note(60), 0, None);
    m.on = vec![Event::NoteMod(None), Event::KeyDown(KbdKey::Layout('t'))];
    m.off = vec![Event::KeyUp(KbdKey::Layout('t'))];
    table.add(m);
    table
}

#[test]
fn end_to_end_note_on_without_modifier() {
    let table = table_for_t();
    let mut kg = KeyGen::new();
    let outcome = dispatch(&[0x90, 60, 100], &table, &mut kg);
    assert_eq!(outcome, DispatchOutcome::Dispatched);
    // No modifier was held, so the NoteMod step makes zero transitions
    // and inserts no settle delay: exactly one key-down comes out.
    assert_eq!(kg.queue, vec![KeyAction::Down(KbdKey::Layout('t'))]);
    assert_eq!(kg.pressed, vec![KbdKey::Layout('t')]);
}

#[test]
fn note_off_runs_the_off_sequence() {
    let table = table_for_t();
    let mut kg = KeyGen::new();
    dispatch(&[0x90, 60, 100], &table, &mut kg);
    let outcome = dispatch(&[0x80, 60, 0], &table, &mut kg);
    assert_eq!(outcome, DispatchOutcome::Dispatched);
    assert_eq!(
        kg.queue,
        vec![
            KeyAction::Down(KbdKey::Layout('t')),
            KeyAction::Up(KbdKey::Layout('t')),
        ]
    );
    assert!(kg.pressed.is_empty());
}

#[test]
fn velocity_zero_note_on_runs_the_off_sequence() {
    let table = table_for_t();
    let mut kg = KeyGen::new();
    dispatch(&[0x90, 60, 100], &table, &mut kg);
    dispatch(&[0x90, 60, 0], &table, &mut kg);
    assert!(kg.pressed.is_empty());
}

#[test]
fn unmapped_notes_do_nothing() {
    let table = table_for_t();
    let mut kg = KeyGen::new();
    let outcome = dispatch(&[0x90, 61, 100], &table, &mut kg);
    assert_eq!(outcome, DispatchOutcome::Unmapped);
    assert!(kg.queue.is_empty());
    assert!(kg.pressed.is_empty());
}

#[test]
fn undecodable_buffers_are_ignored() {
    let table = table_for_t();
    let mut kg = KeyGen::new();
    assert_eq!(dispatch(&[0xC0, 1], &table, &mut kg), DispatchOutcome::Ignored);
    assert_eq!(dispatch(&[0x90, 60], &table, &mut kg), DispatchOutcome::Ignored);
    assert!(kg.queue.is_empty());
}

#[test]
fn delay_steps_queue_waits() {
    let mut kg = KeyGen::new();
    run_sequence(&mut kg, &vec![Event::Delay(5), Event::KeyDown(KbdKey::Escape)]);
    assert_eq!(
        kg.queue,
        vec![KeyAction::Wait(5), KeyAction::Down(KbdKey::Escape)]
    );
}

#[test]
fn generated_table_has_all_mappings() {
    let mut table = NoteMappings::new();
    generate_old_mappings(&mut table);
    assert_eq!(table.mappings.len(), 47);
    let first = &table.mappings[0];
    assert_eq!(first.note.index(), 48);
    assert_eq!(first.channel, 0);
    assert_eq!(
        first.on,
        vec![
            Event::NoteMod(Some(KbdKey::Control)),
            Event::KeyDown(KbdKey::Layout('q')),
        ]
    );
    assert_eq!(first.off, vec![Event::KeyUp(KbdKey::Layout('q'))]);
    let mid = table.find(note(60), 0, None).unwrap();
    assert_eq!(mid.on, vec![Event::NoteMod(None), Event::KeyDown(KbdKey::Layout('q'))]);
    let hi = table.find(note(72), 0, None).unwrap();
    assert_eq!(
        hi.on,
        vec![
            Event::NoteMod(Some(KbdKey::Shift)),
            Event::KeyDown(KbdKey::Layout('q')),
        ]
    );
    let pad = table.find(note(40), 9, None).unwrap();
    assert_eq!(pad.on.len(), 15);
    assert_eq!(pad.on[0], Event::KeyDown(KbdKey::Escape));
    assert!(pad.off.is_empty());
}

#[test]
fn modifier_change_settles_but_repeats_do_not() {
    let mut table = NoteMappings::new();
    generate_old_mappings(&mut table);
    let mut kg = KeyGen::new();
    // Note 48 is the low octave: Control goes down, so a settle wait
    // follows the modifier transition.
    dispatch(&[0x90, 48, 100], &table, &mut kg);
    assert_eq!(
        kg.queue,
        vec![
            KeyAction::Down(KbdKey::Control),
            KeyAction::Wait(OCTAVE_DELAY_MS),
            KeyAction::Down(KbdKey::Layout('q')),
        ]
    );
    kg.queue.clear();
    // Note 49 shares the Control modifier: no transition, no wait.
    dispatch(&[0x90, 49, 100], &table, &mut kg);
    assert_eq!(kg.queue, vec![KeyAction::Down(KbdKey::Layout('2'))]);
}
