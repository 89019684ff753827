//! Core engine of a MIDI-to-keyboard bridge: decoding of channel-voice
//! messages, note-to-action mapping, and an idempotent key state machine
//! that drives synthetic keyboard input.
//!
//! The crate holds only the pure logic. Everything that touches the
//! outside world (MIDI transport, OS key injection, the command line)
//! lives in the surrounding application, which feeds raw bytes in and
//! performs the queued key actions that come out.

pub mod dispatch;
pub mod keydriver;
pub mod midi;
pub mod notemappings;
