//! The dispatcher: decode a raw buffer, look the note up, and drive
//! the selected step sequence through the key driver — plus the
//! built-in legacy mapping table the application installs at startup.

use vstd::prelude::*;
use crate::keydriver::{
    KeyAction, KeyGen, down_emits, down_state, mod_emits, mod_state, up_emits, up_state,
};
use crate::midi::{MidiEvent, MidiNote, decode};
use crate::notemappings::{Event, KbdKey, MappingModel, NoteMapping, NoteMappings, find_match};

verus! {

/// How long to wait for a keyboard modifier to stick.
pub const MOD_DELAY_MS: u64 = 150;

/// How long to wait for a keydown event to stick.
pub const KEY_DELAY_MS: u64 = 40;

/// How long system-level keys, such as Esc, need to register.
pub const SYS_DELAY_MS: u64 = 400;

/// The short settle pause after an actual modifier change.
pub const OCTAVE_DELAY_MS: u64 = 10;

/// What handling one raw buffer came to.
#[derive(Clone, Copy, Debug, PartialEq, Eq, Structural)]
pub enum DispatchOutcome {
    /// The buffer did not decode to a note event; it is ignored.
    Ignored,
    /// The note decoded but no mapping answers to it.
    Unmapped,
    /// A mapping was found and its sequence was run.
    Dispatched,
}

/// The pressed set after one step runs through the driver.
pub open spec fn step_state(p: Seq<KbdKey>, ev: Event) -> Seq<KbdKey> {
    match ev {
        Event::Delay(_) => p,
        Event::KeyDown(k) => down_state(p, k),
        Event::KeyUp(k) => up_state(p, k),
        Event::NoteMod(req) => mod_state(p, req),
    }
}

/// What one step emits: a delay queues a wait; key steps emit through
/// the idempotent press and release; a modifier step emits its
/// transitions and, only when there was at least one, a settle wait.
pub open spec fn step_emits(p: Seq<KbdKey>, ev: Event) -> Seq<KeyAction> {
    match ev {
        Event::Delay(ms) => seq![KeyAction::Wait(ms)],
        Event::KeyDown(k) => down_emits(p, k),
        Event::KeyUp(k) => up_emits(p, k),
        Event::NoteMod(req) => if mod_emits(p, req).len() > 0 {
            mod_emits(p, req) + seq![KeyAction::Wait(OCTAVE_DELAY_MS)]
        } else {
            mod_emits(p, req)
        },
    }
}

/// The pressed set after a whole sequence runs, step by step.
pub open spec fn run_state(p: Seq<KbdKey>, evs: Seq<Event>) -> Seq<KbdKey>
    decreases evs.len(),
{
    if evs.len() == 0 {
        p
    } else {
        run_state(step_state(p, evs[0]), evs.drop_first())
    }
}

/// What a whole sequence emits, step by step, in order.
pub open spec fn run_emits(p: Seq<KbdKey>, evs: Seq<Event>) -> Seq<KeyAction>
    decreases evs.len(),
{
    if evs.len() == 0 {
        Seq::<KeyAction>::empty()
    } else {
        step_emits(p, evs[0]) + run_emits(step_state(p, evs[0]), evs.drop_first())
    }
}

proof fn lemma_run_append(p: Seq<KbdKey>, evs: Seq<Event>, ev: Event)
    ensures
        run_state(p, evs.push(ev)) == step_state(run_state(p, evs), ev),
        run_emits(p, evs.push(ev)) == run_emits(p, evs) + step_emits(run_state(p, evs), ev),
    decreases evs.len(),
{
    let w = evs.push(ev);
    assert(w[0] == if evs.len() == 0 {
        ev
    } else {
        evs[0]
    });
    if evs.len() == 0 {
        reveal_with_fuel(run_state, 2);
        reveal_with_fuel(run_emits, 2);
        assert(w.drop_first() =~= Seq::<Event>::empty());
        assert(run_emits(p, w) =~= step_emits(p, ev));
        assert(run_emits(p, evs) + step_emits(run_state(p, evs), ev) =~= step_emits(p, ev));
    } else {
        assert(w.drop_first() =~= evs.drop_first().push(ev));
        lemma_run_append(step_state(p, evs[0]), evs.drop_first(), ev);
        assert(run_emits(p, w) =~= run_emits(p, evs) + step_emits(run_state(p, evs), ev));
    }
}

/// Run one step through the driver: exactly `step_state` and
/// `step_emits`.
pub fn run_event(keygen: &mut KeyGen, ev: &Event)
    requires
        old(keygen).wf(),
    ensures
        final(keygen).wf(),
        final(keygen).pressed@ == step_state(old(keygen).pressed@, *ev),
        final(keygen).queue@ == old(keygen).queue@ + step_emits(old(keygen).pressed@, *ev),
{
    match ev {
        Event::Delay(ms) => {
            keygen.emit_wait(*ms);
            proof {
                assert(final(keygen).queue@ =~= old(keygen).queue@ + step_emits(
                    old(keygen).pressed@,
                    *ev,
                ));
            }
        },
        Event::KeyDown(k) => {
            keygen.key_down(k);
        },
        Event::KeyUp(k) => {
            keygen.key_up(k);
        },
        Event::NoteMod(req) => {
            let changes = keygen.apply_modifier(*req);
            if changes > 0 {
                keygen.emit_wait(OCTAVE_DELAY_MS);
                proof {
                    assert(final(keygen).queue@ =~= old(keygen).queue@ + step_emits(
                        old(keygen).pressed@,
                        *ev,
                    ));
                }
            } else {
                proof {
                    assert(final(keygen).queue@ =~= old(keygen).queue@ + step_emits(
                        old(keygen).pressed@,
                        *ev,
                    ));
                }
            }
        },
    }
}

/// Run a whole sequence through the driver, in order, synchronously:
/// exactly `run_state` and `run_emits`.
pub fn run_sequence(keygen: &mut KeyGen, sequence: &Vec<Event>)
    requires
        old(keygen).wf(),
    ensures
        final(keygen).wf(),
        final(keygen).pressed@ == run_state(old(keygen).pressed@, sequence@),
        final(keygen).queue@ == old(keygen).queue@ + run_emits(old(keygen).pressed@, sequence@),
{
    let ghost p0 = keygen.pressed@;
    let ghost q0 = keygen.queue@;
    let mut i: usize = 0;
    proof {
        assert(sequence@.take(0) =~= Seq::<Event>::empty());
        assert(q0 + run_emits(p0, sequence@.take(0)) =~= q0);
    }
    while i < sequence.len()
        invariant
            i <= sequence@.len(),
            keygen.wf(),
            keygen.pressed@ == run_state(p0, sequence@.take(i as int)),
            keygen.queue@ == q0 + run_emits(p0, sequence@.take(i as int)),
        decreases sequence@.len() - i,
    {
        run_event(keygen, &sequence[i]);
        proof {
            assert(sequence@.take(i + 1) =~= sequence@.take(i as int).push(sequence@[i as int]));
            lemma_run_append(p0, sequence@.take(i as int), sequence@[i as int]);
            assert(keygen.queue@ =~= q0 + run_emits(p0, sequence@.take(i + 1)));
        }
        i = i + 1;
    }
    proof {
        assert(sequence@.take(sequence@.len() as int) =~= sequence@);
    }
}

/// The sequence a mapping runs for a decoded event kind: `on` for a
/// note-on, `off` for a note-off.
pub open spec fn selected_sequence(m: MappingModel, ev: MidiEvent) -> Seq<Event> {
    if ev == MidiEvent::NoteOn {
        m.on
    } else {
        m.off
    }
}

/// Handle one raw buffer: buffers that do not decode are swallowed;
/// a decoded note with no mapping is reported unmapped and does
/// nothing; otherwise the mapping's on or off sequence runs through
/// the driver, exactly as `run_state` and `run_emits` describe.
pub fn dispatch(raw_message: &[u8], mappings: &NoteMappings, keygen: &mut KeyGen) -> (r:
    DispatchOutcome)
    requires
        old(keygen).wf(),
        raw_message@.len() >= 1,
    ensures
        final(keygen).wf(),
        (match decode(raw_message@) {
            Err(_) => r == DispatchOutcome::Ignored && final(keygen).pressed@ == old(
                keygen,
            ).pressed@ && final(keygen).queue@ == old(keygen).queue@,
            Ok(msg) => (match find_match(mappings@, msg.note.value, msg.channel, None) {
                None => r == DispatchOutcome::Unmapped && final(keygen).pressed@ == old(
                    keygen,
                ).pressed@ && final(keygen).queue@ == old(keygen).queue@,
                Some(i) => r == DispatchOutcome::Dispatched && final(keygen).pressed@
                    == run_state(
                    old(keygen).pressed@,
                    selected_sequence(mappings@[i], msg.event),
                ) && final(keygen).queue@ == old(keygen).queue@ + run_emits(
                    old(keygen).pressed@,
                    selected_sequence(mappings@[i], msg.event),
                ),
            }),
        }),
{
    let msg = match crate::midi::MidiMessage::new(raw_message) {
        Err(_) => {
            return DispatchOutcome::Ignored;
        },
        Ok(m) => m,
    };
    let mapping = match mappings.find(msg.note, msg.channel, None) {
        None => {
            return DispatchOutcome::Unmapped;
        },
        Some(m) => m,
    };
    let sequence = match msg.event {
        MidiEvent::NoteOn => &mapping.on,
        MidiEvent::NoteOff => &mapping.off,
    };
    run_sequence(keygen, sequence);
    DispatchOutcome::Dispatched
}

/// The character a melodic key index maps to: one octave of a QWERTY
/// piano row.
pub open spec fn legacy_key(i: int) -> char {
    if i == 0 {
        'q'
    } else if i == 1 {
        '2'
    } else if i == 2 {
        'w'
    } else if i == 3 {
        '3'
    } else if i == 4 {
        'e'
    } else if i == 5 {
        'r'
    } else if i == 6 {
        '5'
    } else if i == 7 {
        't'
    } else if i == 8 {
        '6'
    } else if i == 9 {
        'y'
    } else if i == 10 {
        '7'
    } else if i == 11 {
        'u'
    } else {
        'i'
    }
}

/// The character a pad index maps to.
pub open spec fn pad_key(i: int) -> char {
    if i == 0 {
        'z'
    } else if i == 1 {
        'x'
    } else if i == 2 {
        'c'
    } else if i == 3 {
        'v'
    } else if i == 4 {
        'b'
    } else if i == 5 {
        'n'
    } else if i == 6 {
        'm'
    } else {
        ','
    }
}

/// The three mappings one melodic key gets: the low octave with
/// Control held, the middle octave bare, the high octave with Shift
/// held, all on channel 0 starting at note 48.
pub open spec fn legacy_triple(i: int) -> Seq<MappingModel> {
    let key = legacy_key(i);
    seq![
        MappingModel {
            note: (48 + i) as u8,
            channel: 0,
            instrument: None,
            on: seq![
                Event::NoteMod(Some(KbdKey::Control)),
                Event::KeyDown(KbdKey::Layout(key)),
            ],
            off: seq![Event::KeyUp(KbdKey::Layout(key))],
        },
        MappingModel {
            note: (60 + i) as u8,
            channel: 0,
            instrument: None,
            on: seq![Event::NoteMod(None), Event::KeyDown(KbdKey::Layout(key))],
            off: seq![Event::KeyUp(KbdKey::Layout(key))],
        },
        MappingModel {
            note: (72 + i) as u8,
            channel: 0,
            instrument: None,
            on: seq![Event::NoteMod(Some(KbdKey::Shift)), Event::KeyDown(KbdKey::Layout(key))],
            off: seq![Event::KeyUp(KbdKey::Layout(key))],
        },
    ]
}

/// The triples of the first `n` melodic keys, in key order.
pub open spec fn legacy_keys_models(n: int) -> Seq<MappingModel>
    decreases n,
{
    if n <= 0 {
        Seq::<MappingModel>::empty()
    } else {
        legacy_keys_models(n - 1) + legacy_triple(n - 1)
    }
}

/// The instrument-switch sequence a pad fires: Esc, then
/// Control+Alt+Shift and the pad's character, with the delays each
/// stage needs.
pub open spec fn pad_sequence(key: char) -> Seq<Event> {
    seq![
        Event::KeyDown(KbdKey::Escape),
        Event::Delay(KEY_DELAY_MS),
        Event::KeyUp(KbdKey::Escape),
        Event::Delay(SYS_DELAY_MS),
        Event::KeyDown(KbdKey::Control),
        Event::KeyDown(KbdKey::Alt),
        Event::KeyDown(KbdKey::Shift),
        Event::Delay(MOD_DELAY_MS),
        Event::KeyDown(KbdKey::Layout(key)),
        Event::Delay(KEY_DELAY_MS),
        Event::KeyUp(KbdKey::Layout(key)),
        Event::Delay(MOD_DELAY_MS),
        Event::KeyUp(KbdKey::Shift),
        Event::KeyUp(KbdKey::Alt),
        Event::KeyUp(KbdKey::Control),
    ]
}

/// The mapping one pad gets: channel 9, notes from 40 up, the switch
/// sequence on note-on and nothing on note-off.
pub open spec fn pad_model(i: int) -> MappingModel {
    MappingModel {
        note: (40 + i) as u8,
        channel: 9,
        instrument: None,
        on: pad_sequence(pad_key(i)),
        off: Seq::<Event>::empty(),
    }
}

/// The mappings of the first `n` pads, in pad order.
pub open spec fn pad_models(n: int) -> Seq<MappingModel>
    decreases n,
{
    if n <= 0 {
        Seq::<MappingModel>::empty()
    } else {
        pad_models(n - 1) + seq![pad_model(n - 1)]
    }
}

/// Everything `generate_old_mappings` appends: the 13 melodic keys'
/// triples, then the 8 pads.
pub open spec fn legacy_models() -> Seq<MappingModel> {
    legacy_keys_models(13) + pad_models(8)
}

fn legacy_key_at(i: usize) -> (r: char)
    requires
        i < 13,
    ensures
        r == legacy_key(i as int),
{
    let keys = ['q', '2', 'w', '3', 'e', 'r', '5', 't', '6', 'y', '7', 'u', 'i'];
    keys[i]
}

fn pad_key_at(i: usize) -> (r: char)
    requires
        i < 8,
    ensures
        r == pad_key(i as int),
{
    let pads = ['z', 'x', 'c', 'v', 'b', 'n', 'm', ','];
    pads[i]
}

/// Install the built-in table: three octaves of melodic keys on
/// channel 0 — low octave with Control, middle bare, high with
/// Shift — and eight instrument-switch pads on channel 9, appended in
/// that order after whatever the table already holds.
pub fn generate_old_mappings(mappings: &mut NoteMappings)
    ensures
        final(mappings)@ == old(mappings)@ + legacy_models(),
{
    let ghost t0 = mappings@;
    let mut key_idx: usize = 0;
    proof {
        assert(t0 + legacy_keys_models(0) =~~= t0);
    }
    while key_idx < 13
        invariant
            key_idx <= 13,
            mappings@ == t0 + legacy_keys_models(key_idx as int),
        decreases 13 - key_idx,
    {
        let key = legacy_key_at(key_idx);
        let base: u8 = 48;
        let note_lo = MidiNote { value: base + key_idx as u8 };
        let note_mid = MidiNote { value: base + key_idx as u8 + 12 };
        let note_hi = MidiNote { value: base + key_idx as u8 + 24 };

        let mut note_mapping_lo = NoteMapping::new(note_lo, 0, None);
        let mut note_mapping_mid = NoteMapping::new(note_mid, 0, None);
        let mut note_mapping_hi = NoteMapping::new(note_hi, 0, None);

        note_mapping_lo.on = NoteMapping::down_event(
            key,
            Some(KbdKey::Control),
            Some(MOD_DELAY_MS),
        );
        note_mapping_lo.off = NoteMapping::up_event(key, Some(KbdKey::Control), Some(MOD_DELAY_MS));

        note_mapping_mid.on = NoteMapping::down_event(key, None, None);
        note_mapping_mid.off = NoteMapping::up_event(key, None, None);

        note_mapping_hi.on = NoteMapping::down_event(key, Some(KbdKey::Shift), Some(MOD_DELAY_MS));
        note_mapping_hi.off = NoteMapping::up_event(key, Some(KbdKey::Shift), Some(MOD_DELAY_MS));

        proof {
            assert(note_mapping_lo@ =~~= legacy_triple(key_idx as int)[0]);
            assert(note_mapping_mid@ =~~= legacy_triple(key_idx as int)[1]);
            assert(note_mapping_hi@ =~~= legacy_triple(key_idx as int)[2]);
        }
        let ghost before = mappings@;
        mappings.add(note_mapping_lo);
        mappings.add(note_mapping_mid);
        mappings.add(note_mapping_hi);
        proof {
            assert(mappings@ =~~= before + legacy_triple(key_idx as int));
            assert(mappings@ =~~= t0 + legacy_keys_models(key_idx as int + 1));
        }
        key_idx = key_idx + 1;
    }
    let mut pad_idx: usize = 0;
    proof {
        assert(mappings@ =~~= t0 + legacy_keys_models(13) + pad_models(0));
    }
    while pad_idx < 8
        invariant
            pad_idx <= 8,
            mappings@ == t0 + legacy_keys_models(13) + pad_models(pad_idx as int),
        decreases 8 - pad_idx,
    {
        let pad = pad_key_at(pad_idx);
        let mut seq_events: Vec<Event> = Vec::new();
        seq_events.push(Event::KeyDown(KbdKey::Escape));
        seq_events.push(Event::Delay(KEY_DELAY_MS));
        seq_events.push(Event::KeyUp(KbdKey::Escape));
        seq_events.push(Event::Delay(SYS_DELAY_MS));
        seq_events.push(Event::KeyDown(KbdKey::Control));
        seq_events.push(Event::KeyDown(KbdKey::Alt));
        seq_events.push(Event::KeyDown(KbdKey::Shift));
        seq_events.push(Event::Delay(MOD_DELAY_MS));
        seq_events.push(Event::KeyDown(KbdKey::Layout(pad)));
        seq_events.push(Event::Delay(KEY_DELAY_MS));
        seq_events.push(Event::KeyUp(KbdKey::Layout(pad)));
        seq_events.push(Event::Delay(MOD_DELAY_MS));
        seq_events.push(Event::KeyUp(KbdKey::Shift));
        seq_events.push(Event::KeyUp(KbdKey::Alt));
        seq_events.push(Event::KeyUp(KbdKey::Control));
        proof {
            assert(seq_events@ =~= pad_sequence(pad_key(pad_idx as int)));
        }
        let mut pad_mapping = NoteMapping::new(
            MidiNote { value: 40 + pad_idx as u8 },
            9,
            None,
        );
        pad_mapping.on = seq_events;
        proof {
            assert(pad_mapping@ =~~= pad_model(pad_idx as int));
        }
        let ghost before = mappings@;
        mappings.add(pad_mapping);
        proof {
            assert(mappings@ =~~= t0 + legacy_keys_models(13) + pad_models(pad_idx as int + 1));
        }
        pad_idx = pad_idx + 1;
    }
    proof {
        assert(mappings@ =~~= t0 + legacy_models());
    }
}

} // verus!
