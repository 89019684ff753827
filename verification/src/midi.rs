//! Wire decoder: raw MIDI channel-voice bytes to typed note events, and
//! the textual note-name reader used by configuration import.

use vstd::prelude::*;
use vstd::std_specs::iter::IteratorSpec;

verus! {

broadcast use vstd::string::axiom_spec_iter;

/// The kind of a decoded channel-voice message.
#[derive(Clone, Copy, Debug, PartialEq, Eq, Structural)]
pub enum MidiEvent {
    NoteOn,
    NoteOff,
}

/// A MIDI pitch: an integer in `[0, 127]`. Value 48 is the note "C3".
#[derive(Clone, Copy, Debug, PartialEq, Eq, Structural)]
pub struct MidiNote {
    pub value: u8,
}

/// Why a buffer or a note name was rejected.
#[derive(Clone, Copy, Debug, PartialEq, Eq, Structural)]
pub enum MidiError {
    /// The buffer ends before the message it announces is complete.
    TooShort,
    /// The status byte (carried along) names a message kind outside
    /// the note-on/note-off subset handled here.
    Unimplemented(u8),
    /// A note value above 127.
    NoteOutOfRange,
    /// Text that matches no note name.
    Unparseable,
}

/// The character code after ASCII lowercasing: `A`..`Z` map to their
/// lower-case forms, everything else is unchanged. Note names are pure
/// ASCII, so this is all the case folding their grammar needs.
pub open spec fn lower_code(c: char) -> int {
    if 'A' as int <= c as int && c as int <= 'Z' as int {
        c as int + 32
    } else {
        c as int
    }
}

/// The semitone offset within an octave of a (lower-cased) letter,
/// or `None` if the character names no note letter.
pub open spec fn letter_semitone(x: int) -> Option<u8> {
    if x == 'c' as int {
        Some(0u8)
    } else if x == 'd' as int {
        Some(2u8)
    } else if x == 'e' as int {
        Some(4u8)
    } else if x == 'f' as int {
        Some(5u8)
    } else if x == 'g' as int {
        Some(7u8)
    } else if x == 'a' as int {
        Some(9u8)
    } else if x == 'b' as int {
        Some(11u8)
    } else {
        None
    }
}

/// Letters that have a sharp form in the naming scheme: all but `e`
/// and `b`.
pub open spec fn sharp_allowed(x: int) -> bool {
    x != 'e' as int && x != 'b' as int
}

/// The note value of the first pitch of an octave, keyed by the octave
/// character: `n` names the lowest octave (note 0), digits `0`..`9` the
/// octaves from note 12 upward.
pub open spec fn octave_first_value(x: int) -> Option<u8> {
    if x == 'n' as int {
        Some(0u8)
    } else if '0' as int <= x && x <= '9' as int {
        Some((12 * (x - '0' as int + 1)) as u8)
    } else {
        None
    }
}

/// The note named by a prefix of `s`, read case-insensitively:
/// a letter, an optional `s` for sharp, and an octave character.
/// Characters after the name are ignored. `None` when no prefix of
/// `s` is a note name (this includes sharps of `e` and `b`, and
/// combinations above pitch 127, which have no name).
pub open spec fn note_name_value(s: Seq<char>) -> Option<u8> {
    if s.len() < 2 {
        None
    } else {
        let l0 = lower_code(s[0]);
        match letter_semitone(l0) {
            None => None,
            Some(semi) => {
                let l1 = lower_code(s[1]);
                if l1 == 's' as int {
                    if sharp_allowed(l0) && s.len() >= 3 {
                        match octave_first_value(lower_code(s[2])) {
                            None => None,
                            Some(base) => if base + semi + 1 <= 127 {
                                Some((base + semi + 1) as u8)
                            } else {
                                None
                            },
                        }
                    } else {
                        None
                    }
                } else {
                    match octave_first_value(l1) {
                        None => None,
                        Some(base) => if base + semi <= 127 {
                            Some((base + semi) as u8)
                        } else {
                            None
                        },
                    }
                }
            },
        }
    }
}

/// The characters of a string, in order, as a vector.
pub fn collect_chars(s: &str) -> (r: Vec<char>)
    ensures
        r@ == s@,
{
    let mut v: Vec<char> = Vec::new();
    let mut it = s.chars();
    proof {
        assert(v@ + it.remaining() =~= s@);
    }
    loop
        invariant
            it.obeys_prophetic_iter_laws(),
            v@ + it.remaining() == s@,
        ensures
            v@ == s@,
        decreases s@.len() - v@.len(),
    {
        let ghost prev_v = v@;
        let ghost prev_rem = it.remaining();
        match it.next() {
            Some(c) => {
                v.push(c);
                proof {
                    assert(v@ + it.remaining() =~= prev_v + prev_rem);
                }
            },
            None => {
                proof {
                    assert(v@ + it.remaining() =~= v@);
                }
                break;
            },
        }
    }
    v
}

fn lower_ascii(c: char) -> (r: u32)
    ensures
        r == lower_code(c),
{
    let x = c as u32;
    if x >= 'A' as u32 && x <= 'Z' as u32 {
        x + 32
    } else {
        x
    }
}

fn letter_semi(x: u32) -> (r: Option<u8>)
    ensures
        r == letter_semitone(x as int),
{
    if x == 'c' as u32 {
        Some(0)
    } else if x == 'd' as u32 {
        Some(2)
    } else if x == 'e' as u32 {
        Some(4)
    } else if x == 'f' as u32 {
        Some(5)
    } else if x == 'g' as u32 {
        Some(7)
    } else if x == 'a' as u32 {
        Some(9)
    } else if x == 'b' as u32 {
        Some(11)
    } else {
        None
    }
}

fn octave_base(x: u32) -> (r: Option<u8>)
    ensures
        r == octave_first_value(x as int),
{
    if x == 'n' as u32 {
        Some(0)
    } else if x >= '0' as u32 && x <= '9' as u32 {
        let d = (x - '0' as u32) as u8;
        Some(12 * (d + 1))
    } else {
        None
    }
}

/// The note value named by a prefix of the characters, exactly as
/// `note_name_value` describes it.
pub fn note_value_of_chars(cs: &Vec<char>) -> (r: Option<u8>)
    ensures
        r == note_name_value(cs@),
{
    if cs.len() < 2 {
        return None;
    }
    let l0 = lower_ascii(cs[0]);
    let semi = match letter_semi(l0) {
        None => {
            return None;
        },
        Some(s) => s,
    };
    let l1 = lower_ascii(cs[1]);
    if l1 == 's' as u32 {
        if l0 != 'e' as u32 && l0 != 'b' as u32 && cs.len() >= 3 {
            let l2 = lower_ascii(cs[2]);
            match octave_base(l2) {
                None => None,
                Some(base) => {
                    let v = base as u32 + semi as u32 + 1;
                    if v <= 127 {
                        Some(v as u8)
                    } else {
                        None
                    }
                },
            }
        } else {
            None
        }
    } else {
        match octave_base(l1) {
            None => None,
            Some(base) => {
                let v = base as u32 + semi as u32;
                if v <= 127 {
                    Some(v as u8)
                } else {
                    None
                }
            },
        }
    }
}

impl MidiNote {
    /// Whether the pitch lies in the 7-bit MIDI range.
    pub open spec fn valid(self) -> bool {
        self.value <= 127
    }

    /// The note for a raw 7-bit value, or `NoteOutOfRange` above 127.
    pub fn new(val: u8) -> (r: Result<MidiNote, MidiError>)
        ensures
            val <= 127 ==> r == Ok::<MidiNote, MidiError>(MidiNote { value: val }),
            val > 127 ==> r == Err::<MidiNote, MidiError>(MidiError::NoteOutOfRange),
    {
        if val > 127 {
            Err(MidiError::NoteOutOfRange)
        } else {
            Ok(MidiNote { value: val })
        }
    }

    /// The note named by a prefix of `txt`, per `note_name_value`;
    /// `Unparseable` when no prefix is a note name.
    pub fn new_from_text(txt: &str) -> (r: Result<MidiNote, MidiError>)
        ensures
            (match note_name_value(txt@) {
                Some(v) => r == Ok::<MidiNote, MidiError>(MidiNote { value: v }),
                None => r == Err::<MidiNote, MidiError>(MidiError::Unparseable),
            }),
    {
        let cs = collect_chars(txt);
        match note_value_of_chars(&cs) {
            Some(v) => Ok(MidiNote { value: v }),
            None => Err(MidiError::Unparseable),
        }
    }

    /// The raw 7-bit value of the note.
    pub fn index(self) -> (r: u8)
        ensures
            r == self.value,
    {
        self.value
    }
}

/// Every note value in range round-trips through construction:
/// `MidiNote::new(b)` succeeds exactly on `b <= 127`, and the note
/// built from `b` reports `b` back as its index.
pub proof fn lemma_note_round_trip(val: u8)
    requires
        val <= 127,
    ensures
        (MidiNote { value: val }).valid(),
        (MidiNote { value: val }).value == val,
{
}

/// A decoded channel-voice message.
#[derive(Clone, Copy, Debug, PartialEq, Eq, Structural)]
pub struct MidiMessage {
    pub event: MidiEvent,
    pub channel: u8,
    pub note: MidiNote,
    pub velocity: u8,
}

/// What decoding a raw buffer yields. Status nibble `0x8` is note-off,
/// `0x9` is note-on — normalized to note-off when the velocity is zero;
/// both need three bytes. Any other status byte is `Unimplemented`.
pub open spec fn decode(bytes: Seq<u8>) -> Result<MidiMessage, MidiError>
    recommends
        bytes.len() >= 1,
{
    let status = bytes[0];
    if status & 0xf0 == 0x80 {
        if bytes.len() < 3 {
            Err(MidiError::TooShort)
        } else {
            Ok(MidiMessage {
                event: MidiEvent::NoteOff,
                channel: status & 0x0f,
                note: MidiNote { value: bytes[1] & 0x7f },
                velocity: bytes[2] & 0x7f,
            })
        }
    } else if status & 0xf0 == 0x90 {
        if bytes.len() < 3 {
            Err(MidiError::TooShort)
        } else {
            Ok(MidiMessage {
                event: if bytes[2] & 0x7f == 0 {
                    MidiEvent::NoteOff
                } else {
                    MidiEvent::NoteOn
                },
                channel: status & 0x0f,
                note: MidiNote { value: bytes[1] & 0x7f },
                velocity: bytes[2] & 0x7f,
            })
        }
    } else {
        Err(MidiError::Unimplemented(status))
    }
}

impl MidiMessage {
    /// Decode a raw buffer, exactly as `decode` describes.
    pub fn new(message: &[u8]) -> (r: Result<MidiMessage, MidiError>)
        requires
            message@.len() >= 1,
        ensures
            r == decode(message@),
    {
        let status = message[0];
        let kind = status & 0xf0;
        if kind == 0x80 || kind == 0x90 {
            if message.len() < 3 {
                Err(MidiError::TooShort)
            } else {
                let velocity = message[2] & 0x7f;
                let event = if kind == 0x80 {
                    MidiEvent::NoteOff
                } else if velocity == 0 {
                    MidiEvent::NoteOff
                } else {
                    MidiEvent::NoteOn
                };
                let note_raw = message[1] & 0x7f;
                proof {
                    let b = message@[1];
                    assert(b & 0x7f <= 127) by (bit_vector);
                }
                let note = match MidiNote::new(note_raw) {
                    Ok(n) => n,
                    Err(e) => {
                        return Err(e);
                    },
                };
                Ok(MidiMessage { event, channel: status & 0x0f, note, velocity })
            }
        } else {
            Err(MidiError::Unimplemented(status))
        }
    }

    /// The channel the message arrived on, in `[0, 15]`.
    pub fn channel(&self) -> (r: u8)
        ensures
            r == self.channel,
    {
        self.channel
    }

    /// The note the message is about.
    pub fn note(&self) -> (r: &MidiNote)
        ensures
            *r == self.note,
    {
        &self.note
    }

    /// Whether the message presses or releases the note.
    pub fn event(&self) -> (r: &MidiEvent)
        ensures
            *r == self.event,
    {
        &self.event
    }
}

/// The running-status convention: a note-on message with velocity zero
/// decodes as a note-off, never as a note-on.
pub proof fn lemma_velocity_zero_normalized(bytes: Seq<u8>)
    requires
        bytes.len() == 3,
        bytes[0] & 0xf0 == 0x90,
        bytes[2] & 0x7f == 0,
    ensures
        (decode(bytes) matches Ok(m) && m.event == MidiEvent::NoteOff),
{
}

} // verus!
