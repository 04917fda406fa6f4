//! The decision logic of a small polyphonic software synthesizer and MIDI
//! player: envelopes, instruments, the synthesizer's note state, the MIDI
//! event timeline and the computer-keyboard front end.
//!
//! Times are integer picoseconds and amplitudes are integer millionths of
//! full scale; the audio front end turns them into samples.

pub mod envelope;
pub mod instrument;
pub mod keyboard;
pub mod message;
pub mod midi;
pub mod output;
mod seq_facts;
pub mod synth;
