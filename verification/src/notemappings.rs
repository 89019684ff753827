//! The note mapping table: an ordered collection of
//! (note, channel, optional instrument) -> action-sequence entries with
//! append-only insertion and first-match lookup, and the four-field
//! text line reader that configuration import feeds it.

use vstd::prelude::*;
use crate::midi::{MidiError, MidiNote, collect_chars, note_name_value, note_value_of_chars};

verus! {

/// A logical keyboard key. Kept apart from any injection library's own
/// key type; the application translates at the injection boundary.
#[derive(Clone, Copy, Debug, PartialEq, Eq, Structural)]
pub enum KbdKey {
    /// return key
    Return,
    /// tab key (tabulator)
    Tab,
    /// space key
    Space,
    /// backspace key
    Backspace,
    /// escape key (esc)
    Escape,
    /// super key on Linux, command key on macOS, windows key on Windows
    Meta,
    /// shift key
    Shift,
    /// caps lock key
    CapsLock,
    /// alt key on Linux and Windows (option key on macOS)
    Alt,
    /// option key on macOS (alt key on Linux and Windows)
    Option,
    /// control key
    Control,
    /// home key
    Home,
    /// page up key
    PageUp,
    /// page down key
    PageDown,
    /// left arrow key
    LeftArrow,
    /// right arrow key
    RightArrow,
    /// down arrow key
    DownArrow,
    /// up arrow key
    UpArrow,
    /// F1 key
    F1,
    /// F2 key
    F2,
    /// F3 key
    F3,
    /// F4 key
    F4,
    /// F5 key
    F5,
    /// F6 key
    F6,
    /// F7 key
    F7,
    /// F8 key
    F8,
    /// F9 key
    F9,
    /// F10 key
    F10,
    /// F11 key
    F11,
    /// F12 key
    F12,
    /// keyboard layout dependent key
    Layout(char),
    /// raw keycode, e.g. 0x38
    Raw(u16),
}

/// One primitive step of an action sequence.
#[derive(Clone, Copy, Debug, PartialEq, Eq, Structural)]
pub enum Event {
    /// Pause for the given number of milliseconds.
    Delay(u64),
    /// Press a key.
    KeyDown(KbdKey),
    /// Release a key.
    KeyUp(KbdKey),
    /// Declare the modifier held for this sequence; `None` releases
    /// every modifier. The key driver turns this into the minimal set
    /// of presses and releases.
    NoteMod(Option<KbdKey>),
}

/// The mathematical content of a `NoteMapping`: the instrument name as
/// a character sequence, the two step lists as sequences.
#[verifier::ext_equal]
pub struct MappingModel {
    pub note: u8,
    pub channel: u8,
    pub instrument: Option<Seq<char>>,
    pub on: Seq<Event>,
    pub off: Seq<Event>,
}

/// One configured mapping: the (note, channel, optional instrument)
/// key it answers to, and the step sequences for the on and off
/// transitions.
#[derive(Clone, Debug)]
pub struct NoteMapping {
    /// The source note that triggers this mapping.
    pub note: MidiNote,
    /// The source channel; 0 is a good default.
    pub channel: u8,
    /// The instrument name this mapping is restricted to, if any.
    pub instrument_name: Option<String>,
    /// The sequence to run when the note is pressed.
    pub on: Vec<Event>,
    /// The sequence to run when the note is released.
    pub off: Vec<Event>,
}

impl View for NoteMapping {
    type V = MappingModel;

    open spec fn view(&self) -> MappingModel {
        MappingModel {
            note: self.note.value,
            channel: self.channel,
            instrument: self.instrument_name.deep_view(),
            on: self.on@,
            off: self.off@,
        }
    }
}

impl NoteMapping {
    /// A mapping for the given key with empty on and off sequences.
    pub fn new(note: MidiNote, channel: u8, instrument_name: Option<String>) -> (r: NoteMapping)
        ensures
            r@ == (MappingModel {
                note: note.value,
                channel,
                instrument: instrument_name.deep_view(),
                on: Seq::<Event>::empty(),
                off: Seq::<Event>::empty(),
            }),
    {
        let r = NoteMapping { note, channel, instrument_name, on: vec![], off: vec![] };
        proof {
            assert(r@ =~= MappingModel {
                note: note.value,
                channel,
                instrument: r.instrument_name.deep_view(),
                on: Seq::<Event>::empty(),
                off: Seq::<Event>::empty(),
            });
        }
        r
    }

    /// The canonical "on" sequence for a printable key: declare the
    /// modifier (or its absence) once, then press the key.
    pub fn down_event(key: char, modifier: Option<KbdKey>, _delay: Option<u64>) -> (r: Vec<Event>)
        ensures
            r@ == seq![Event::NoteMod(modifier), Event::KeyDown(KbdKey::Layout(key))],
    {
        let mut v: Vec<Event> = Vec::new();
        v.push(Event::NoteMod(modifier));
        v.push(Event::KeyDown(KbdKey::Layout(key)));
        proof {
            assert(v@ =~= seq![Event::NoteMod(modifier), Event::KeyDown(KbdKey::Layout(key))]);
        }
        v
    }

    /// The canonical "off" sequence for a printable key: release it.
    pub fn up_event(key: char, _modifier: Option<KbdKey>, _delay: Option<u64>) -> (r: Vec<Event>)
        ensures
            r@ == seq![Event::KeyUp(KbdKey::Layout(key))],
    {
        let mut v: Vec<Event> = Vec::new();
        v.push(Event::KeyUp(KbdKey::Layout(key)));
        proof {
            assert(v@ =~= seq![Event::KeyUp(KbdKey::Layout(key))]);
        }
        v
    }
}

/// Whether a mapping answers to the given lookup key. The instrument
/// comparison includes absence: an absent instrument only equals an
/// absent instrument.
pub open spec fn mapping_matches(
    m: MappingModel,
    note: u8,
    channel: u8,
    instrument: Option<Seq<char>>,
) -> bool {
    m.note == note && m.channel == channel && m.instrument == instrument
}

/// The index of the first mapping in `ms` that answers to the lookup
/// key, or `None` if none does.
pub open spec fn find_match(
    ms: Seq<MappingModel>,
    note: u8,
    channel: u8,
    instrument: Option<Seq<char>>,
) -> Option<int>
    decreases ms.len(),
{
    if ms.len() == 0 {
        None
    } else if mapping_matches(ms[0], note, channel, instrument) {
        Some(0int)
    } else {
        match find_match(ms.drop_first(), note, channel, instrument) {
            None => None,
            Some(i) => Some(i + 1),
        }
    }
}

proof fn lemma_find_match_prefix(
    ms: Seq<MappingModel>,
    note: u8,
    channel: u8,
    instrument: Option<Seq<char>>,
    i: int,
)
    requires
        0 <= i <= ms.len(),
        forall|j: int| 0 <= j < i ==> !mapping_matches(ms[j], note, channel, instrument),
    ensures
        i == ms.len() ==> find_match(ms, note, channel, instrument) is None,
        i < ms.len() && mapping_matches(ms[i], note, channel, instrument) ==> find_match(
            ms,
            note,
            channel,
            instrument,
        ) == Some(i),
    decreases i,
{
    if i == 0 {
        if ms.len() == 0 {
        } else if mapping_matches(ms[0], note, channel, instrument) {
        }
    } else {
        assert(!mapping_matches(ms[0], note, channel, instrument));
        lemma_find_match_prefix(ms.drop_first(), note, channel, instrument, i - 1);
        assert(forall|j: int|
            0 <= j < i - 1 ==> ms.drop_first()[j] == ms[j + 1]);
        if i == ms.len() {
            assert(find_match(ms.drop_first(), note, channel, instrument) is None);
        } else if mapping_matches(ms[i], note, channel, instrument) {
            assert(ms.drop_first()[i - 1] == ms[i]);
            assert(find_match(ms.drop_first(), note, channel, instrument) == Some(i - 1));
        }
    }
}

/// Lookup is first-match: if every mapping before position `i1` fails
/// to answer to the key, and the mappings at `i1` and at a later `i2`
/// both answer to it, lookup lands on `i1` — the one added first —
/// whatever sequences the later one carries.
pub proof fn lemma_find_first_match(
    ms: Seq<MappingModel>,
    note: u8,
    channel: u8,
    instrument: Option<Seq<char>>,
    i1: int,
    i2: int,
)
    requires
        0 <= i1 < i2 < ms.len(),
        forall|j: int| 0 <= j < i1 ==> !mapping_matches(ms[j], note, channel, instrument),
        mapping_matches(ms[i1], note, channel, instrument),
        mapping_matches(ms[i2], note, channel, instrument),
    ensures
        find_match(ms, note, channel, instrument) == Some(i1),
{
    lemma_find_match_prefix(ms, note, channel, instrument, i1);
}

/// The ordered mapping table. Insertion appends; lookup scans in
/// insertion order and yields the first match.
pub struct NoteMappings {
    pub mappings: Vec<NoteMapping>,
}

impl View for NoteMappings {
    type V = Seq<MappingModel>;

    open spec fn view(&self) -> Seq<MappingModel> {
        self.mappings@.map_values(|m: NoteMapping| m@)
    }
}

fn opt_string_eq(a: &Option<String>, b: &Option<String>) -> (r: bool)
    ensures
        r == (a.deep_view() == b.deep_view()),
{
    match (a, b) {
        (None, None) => true,
        (Some(x), Some(y)) => *x == *y,
        _ => false,
    }
}

impl NoteMappings {
    /// An empty table.
    pub fn new() -> (r: NoteMappings)
        ensures
            r@ == Seq::<MappingModel>::empty(),
    {
        let r = NoteMappings { mappings: Vec::new() };
        proof {
            assert(r@ =~= Seq::<MappingModel>::empty());
        }
        r
    }

    /// Append a mapping unconditionally: no de-duplication, and no
    /// removal of entries it shadows, so lookup stays first-match.
    pub fn add(&mut self, mapping: NoteMapping)
        ensures
            final(self)@ == old(self)@.push(mapping@),
    {
        let ghost m = mapping@;
        self.mappings.push(mapping);
        proof {
            assert(self@ =~= old(self)@.push(m));
        }
    }

    /// The first mapping, in insertion order, whose key triple equals
    /// the query exactly, or `None` if the table holds none.
    pub fn find(&self, note: MidiNote, channel: u8, instrument_name: Option<String>) -> (r: Option<
        &NoteMapping,
    >)
        ensures
            (match find_match(self@, note.value, channel, instrument_name.deep_view()) {
                Some(i) => (r matches Some(m) && 0 <= i < self.mappings@.len() && *m
                    == self.mappings@[i] && m@ == self@[i]),
                None => r is None,
            }),
    {
        let ghost key_instr = instrument_name.deep_view();
        let mut idx: usize = 0;
        while idx < self.mappings.len()
            invariant
                idx <= self.mappings@.len(),
                self@.len() == self.mappings@.len(),
                forall|j: int|
                    0 <= j < idx ==> !mapping_matches(self@[j], note.value, channel, key_instr),
                key_instr == instrument_name.deep_view(),
            decreases self.mappings@.len() - idx,
        {
            let m = &self.mappings[idx];
            if m.note == note && m.channel == channel && opt_string_eq(
                &m.instrument_name,
                &instrument_name,
            ) {
                proof {
                    assert(mapping_matches(self@[idx as int], note.value, channel, key_instr));
                    lemma_find_match_prefix(self@, note.value, channel, key_instr, idx as int);
                }
                return Some(m);
            }
            proof {
                assert(!mapping_matches(self@[idx as int], note.value, channel, key_instr));
            }
            idx = idx + 1;
        }
        proof {
            lemma_find_match_prefix(self@, note.value, channel, key_instr, idx as int);
        }
        None
    }
}

/// The fields of a line split at every single space character, in
/// order, empty fields included; a line with no space is one field.
pub open spec fn split_fields(s: Seq<char>) -> Seq<Seq<char>>
    decreases s.len(),
{
    if s.len() == 0 {
        seq![Seq::<char>::empty()]
    } else if s[0] == ' ' {
        seq![Seq::<char>::empty()] + split_fields(s.drop_first())
    } else {
        let rest = split_fields(s.drop_first());
        seq![seq![s[0]] + rest[0]] + rest.drop_first()
    }
}

proof fn lemma_split_fields_len(s: Seq<char>)
    ensures
        split_fields(s).len() >= 1,
    decreases s.len(),
{
    if s.len() == 0 {
    } else {
        lemma_split_fields_len(s.drop_first());
    }
}

/// An ASCII decimal digit.
pub open spec fn is_digit(c: char) -> bool {
    '0' as int <= c as int && c as int <= '9' as int
}

/// The number written by a digit string, most significant digit first.
pub open spec fn digits_value(s: Seq<char>) -> int
    decreases s.len(),
{
    if s.len() == 0 {
        0
    } else {
        digits_value(s.drop_last()) * 10 + (s.last() as int - '0' as int)
    }
}

/// Every character is a decimal digit.
pub open spec fn all_digits(s: Seq<char>) -> bool {
    forall|i: int| 0 <= i < s.len() ==> is_digit(s[i])
}

/// The digit part of a channel field: everything after an optional
/// leading `+`.
pub open spec fn channel_digits(s: Seq<char>) -> Seq<char> {
    if s.len() >= 1 && s[0] == '+' {
        s.drop_first()
    } else {
        s
    }
}

/// The channel number a field names: an optional leading `+`, then at
/// least one digit, value at most 255 — the inputs `u8` parsing
/// accepts.
pub open spec fn parse_channel(s: Seq<char>) -> Option<u8> {
    let digits = channel_digits(s);
    if digits.len() >= 1 && all_digits(digits) && digits_value(digits) <= 255 {
        Some(digits_value(digits) as u8)
    } else {
        None
    }
}

/// What one import line yields: `Ok(None)` for a line that is skipped
/// because it does not have exactly four fields; otherwise a mapping
/// for the named note and channel whose on sequence declares no
/// modifier and presses the first character of the third field, and
/// whose off sequence releases the first character of the fourth —
/// or the error that makes the line unusable.
pub open spec fn line_mapping(s: Seq<char>) -> Result<Option<MappingModel>, MidiError> {
    let fields = split_fields(s);
    if fields.len() != 4 {
        Ok(None)
    } else {
        match note_name_value(fields[0]) {
            None => Err(MidiError::Unparseable),
            Some(v) => match parse_channel(fields[1]) {
                None => Err(MidiError::Unparseable),
                Some(ch) => if fields[2].len() >= 1 && fields[3].len() >= 1 {
                    Ok(Some(MappingModel {
                        note: v,
                        channel: ch,
                        instrument: None,
                        on: seq![
                            Event::NoteMod(None),
                            Event::KeyDown(KbdKey::Layout(fields[2][0])),
                        ],
                        off: seq![Event::KeyUp(KbdKey::Layout(fields[3][0]))],
                    }))
                } else {
                    Err(MidiError::Unparseable)
                },
            },
        }
    }
}

fn is_digit_char(c: char) -> (r: bool)
    ensures
        r == is_digit(c),
{
    let x = c as u32;
    x >= '0' as u32 && x <= '9' as u32
}

fn digit_value_char(c: char) -> (r: u32)
    requires
        is_digit(c),
    ensures
        r == c as int - '0' as int,
        r <= 9,
{
    c as u32 - '0' as u32
}

spec fn splice(c: Seq<char>, fs: Seq<Seq<char>>) -> Seq<Seq<char>> {
    seq![c + fs[0]] + fs.drop_first()
}

fn split_line(cs: &Vec<char>) -> (r: Vec<Vec<char>>)
    ensures
        r.deep_view() == split_fields(cs@),
{
    let mut out: Vec<Vec<char>> = Vec::new();
    let mut cur: Vec<char> = Vec::new();
    let mut i: usize = 0;
    proof {
        lemma_split_fields_len(cs@);
        assert(cs@.skip(0) =~= cs@);
        assert(out.deep_view() + splice(cur@, split_fields(cs@.skip(0))) =~~= split_fields(cs@));
    }
    while i < cs.len()
        invariant
            i <= cs@.len(),
            out.deep_view() + splice(cur@, split_fields(cs@.skip(i as int))) == split_fields(cs@),
        decreases cs@.len() - i,
    {
        let ghost rem = cs@.skip(i as int);
        let ghost rem2 = cs@.skip(i as int + 1);
        proof {
            assert(rem.len() > 0 && rem[0] == cs@[i as int]);
            assert(rem.drop_first() =~= rem2);
            lemma_split_fields_len(rem2);
        }
        let ghost prev_out = out.deep_view();
        let ghost prev_cur = cur@;
        let c = cs[i];
        if c == ' ' {
            out.push(cur);
            cur = Vec::new();
            proof {
                assert(out.deep_view() =~~= prev_out.push(prev_cur));
                assert(split_fields(rem) == seq![Seq::<char>::empty()] + split_fields(rem2));
                assert(splice(prev_cur, split_fields(rem)) =~~= seq![prev_cur]
                    + split_fields(rem2));
                assert(splice(cur@, split_fields(rem2)) =~~= split_fields(rem2));
                assert(out.deep_view() + splice(cur@, split_fields(rem2)) =~~= prev_out + splice(
                    prev_cur,
                    split_fields(rem),
                ));
            }
        } else {
            cur.push(c);
            proof {
                assert(split_fields(rem) == seq![seq![rem[0]] + split_fields(rem2)[0]]
                    + split_fields(rem2).drop_first());
                assert(splice(prev_cur, split_fields(rem)) =~~= seq![prev_cur + seq![c]
                    + split_fields(rem2)[0]] + split_fields(rem2).drop_first());
                assert(cur@ =~= prev_cur + seq![c]);
                assert(splice(cur@, split_fields(rem2)) =~~= seq![prev_cur + seq![c]
                    + split_fields(rem2)[0]] + split_fields(rem2).drop_first());
                assert(out.deep_view() + splice(cur@, split_fields(rem2)) =~~= prev_out + splice(
                    prev_cur,
                    split_fields(rem),
                ));
            }
        }
        i = i + 1;
    }
    let ghost prev_out = out.deep_view();
    let ghost prev_cur = cur@;
    out.push(cur);
    proof {
        assert(cs@.skip(cs@.len() as int) =~= Seq::<char>::empty());
        assert(split_fields(Seq::<char>::empty()) == seq![Seq::<char>::empty()]);
        assert(splice(prev_cur, seq![Seq::<char>::empty()]) =~~= seq![prev_cur]);
        assert(out.deep_view() =~~= prev_out.push(prev_cur));
        assert(out.deep_view() =~~= split_fields(cs@));
    }
    out
}

fn parse_channel_text(field: &Vec<char>) -> (r: Option<u8>)
    ensures
        r == parse_channel(field@),
{
    let has_plus = field.len() >= 1 && field[0] == '+';
    let start: usize = if has_plus {
        1
    } else {
        0
    };
    let ghost digits = if has_plus {
        field@.drop_first()
    } else {
        field@
    };
    proof {
        assert(digits =~= field@.skip(start as int));
        assert(channel_digits(field@) =~= digits);
    }
    if field.len() == start {
        return None;
    }
    let mut acc: u32 = 0;
    let mut over = false;
    let mut i: usize = start;
    proof {
        assert(field@.subrange(start as int, start as int) =~= Seq::<char>::empty());
    }
    while i < field.len()
        invariant
            start <= i <= field@.len(),
            start == (if field@.len() >= 1 && field@[0] == '+' {
                1int
            } else {
                0int
            }),
            digits =~= field@.skip(start as int),
            forall|j: int| start <= j < i ==> is_digit(field@[j]),
            !over ==> acc <= 255 && acc == digits_value(
                field@.subrange(start as int, i as int),
            ),
            over ==> digits_value(field@.subrange(start as int, i as int)) > 255,
        decreases field@.len() - i,
    {
        let c = field[i];
        if !is_digit_char(c) {
            proof {
                assert(channel_digits(field@) =~= digits);
                assert(!is_digit(field@[i as int]));
                assert(channel_digits(field@)[i as int - start as int] == field@[i as int]);
                assert(!all_digits(channel_digits(field@)));
                assert(parse_channel(field@) is None);
            }
            return None;
        }
        proof {
            assert(is_digit(field@[i as int]));
        }
        let d = digit_value_char(c);
        let ghost seen = field@.subrange(start as int, i as int);
        let ghost seen2 = field@.subrange(start as int, i as int + 1);
        proof {
            assert(seen2.drop_last() =~= seen);
            assert(seen2.last() == field@[i as int]);
            assert(digits_value(seen2) == digits_value(seen) * 10 + (field@[i as int] as int
                - '0' as int));
        }
        if !over {
            let next = acc * 10 + d;
            if next > 255 {
                over = true;
            } else {
                acc = next;
            }
        }
        i = i + 1;
    }
    proof {
        assert(field@.subrange(start as int, field@.len() as int) =~= digits);
        assert(channel_digits(field@) =~= digits);
        if !over {
            assert forall|k: int| 0 <= k < digits.len() implies is_digit(digits[k]) by {
                assert(digits[k] == field@[k + start]);
            }
            assert(all_digits(channel_digits(field@)));
        }
    }
    if over {
        None
    } else {
        Some(acc as u8)
    }
}

impl NoteMappings {
    /// Read one line of the four-field import format — note name,
    /// channel, key-down character, key-up character — and append the
    /// mapping it describes. `Ok(true)` when a mapping was added,
    /// `Ok(false)` when the line was skipped for not having four
    /// fields, an error when a field is unusable; the table is
    /// unchanged except by a `Ok(true)` outcome.
    pub fn import_line(&mut self, line: &str) -> (r: Result<bool, MidiError>)
        ensures
            (match line_mapping(line@) {
                Ok(opt) => (match opt {
                    Some(m) => r == Ok::<bool, MidiError>(true) && final(self)@ == old(
                        self,
                    )@.push(m),
                    None => r == Ok::<bool, MidiError>(false) && final(self)@ == old(self)@,
                }),
                Err(e) => r == Err::<bool, MidiError>(e) && final(self)@ == old(self)@,
            }),
    {
        let cs = collect_chars(line);
        let fields = split_line(&cs);
        if fields.len() != 4 {
            return Ok(false);
        }
        proof {
            assert(fields.deep_view().len() == 4);
            assert(fields@[0].deep_view() == fields.deep_view()[0]);
            assert(fields@[1].deep_view() == fields.deep_view()[1]);
            assert(fields@[2].deep_view() == fields.deep_view()[2]);
            assert(fields@[3].deep_view() == fields.deep_view()[3]);
            assert(fields@[0]@ == fields.deep_view()[0]);
            assert(fields@[1]@ == fields.deep_view()[1]);
            assert(fields@[2]@ == fields.deep_view()[2]);
            assert(fields@[3]@ == fields.deep_view()[3]);
        }
        let note_val = match note_value_of_chars(&fields[0]) {
            None => {
                return Err(MidiError::Unparseable);
            },
            Some(v) => v,
        };
        let channel = match parse_channel_text(&fields[1]) {
            None => {
                return Err(MidiError::Unparseable);
            },
            Some(ch) => ch,
        };
        if fields[2].len() == 0 || fields[3].len() == 0 {
            return Err(MidiError::Unparseable);
        }
        let key_down = fields[2][0];
        let key_up = fields[3][0];
        let mut mapping = NoteMapping::new(MidiNote { value: note_val }, channel, None);
        mapping.on = NoteMapping::down_event(key_down, None, None);
        mapping.off = NoteMapping::up_event(key_up, None, None);
        proof {
            assert(mapping@ =~~= line_mapping(line@)->Ok_0->Some_0);
        }
        self.add(mapping);
        Ok(true)
    }
}

} // verus!
