use vstd::prelude::*;
use crate::envelope::{EnvelopeADSR, amplitude_view};

verus! {

/// A sounding (or released) note: its MIDI note number and velocity, the
/// time it started and, once it has been let go, the time it was let go
/// (picoseconds).
#[derive(Debug, Clone, Copy)]
pub struct Note {
    pub value: u8,
    pub velocity: u8,
    pub start: u64,
    pub end: Option<u64>,
}

/// The note's release time as a mathematical value.
pub open spec fn end_view(end: Option<u64>) -> Option<int> {
    match end {
        Some(o) => Some(o as int),
        None => None,
    }
}

/// An instrument that can play notes.
pub trait Instrument {
    /// The instrument's display name.
    fn name(&self) -> &'static str;

    /// The heard level (millionths of full scale) of `note` at `time`;
    /// `None` when the note has finished and can be dropped.
    fn amplitude(&self, note: &Note, time: u64) -> Option<u32>;
}

/// An instrument whose level follows an ADSR envelope around a base
/// frequency.
pub trait StandardInstrument {
    /// The instrument's amplitude envelope.
    fn envelope(&self) -> EnvelopeADSR;
}

/// Piano-like sound: short attack and decay, sustained at 80%.
#[derive(Debug, Clone, Copy)]
pub struct Piano;

/// Brass-like sound: slow attack and decay, sustained at 70%.
#[derive(Debug, Clone, Copy)]
pub struct Brass;

/// Percussion: a short burst that dies away while held and stops at once
/// when let go.
#[derive(Debug, Clone, Copy)]
pub struct DrumKit;

pub open spec fn piano_envelope() -> EnvelopeADSR {
    EnvelopeADSR {
        attack_time: 10_000_000_000,
        attack_amplitude: 1_000_000,
        decay_time: 10_000_000_000,
        sustain_amplitude: 800_000,
        release_time: 20_000_000_000,
    }
}

pub open spec fn brass_envelope() -> EnvelopeADSR {
    EnvelopeADSR {
        attack_time: 200_000_000_000,
        attack_amplitude: 1_000_000,
        decay_time: 300_000_000_000,
        sustain_amplitude: 700_000,
        release_time: 20_000_000_000,
    }
}

pub open spec fn drum_kit_envelope() -> EnvelopeADSR {
    EnvelopeADSR {
        attack_time: 10_000_000_000,
        attack_amplitude: 1_000_000,
        decay_time: 150_000_000_000,
        sustain_amplitude: 0,
        release_time: 0,
    }
}

impl Instrument for Piano {
    fn name(&self) -> (r: &'static str)
        ensures
            r@ == "Piano"@,
    {
        "Piano"
    }

    fn amplitude(&self, note: &Note, time: u64) -> (r: Option<u32>)
        ensures
            amplitude_view(r) == piano_envelope().spec_amplitude_at(
                time as int,
                note.start as int,
                end_view(note.end),
            ),
    {
        self.envelope().amplitude_at(time, note.start, note.end)
    }
}

impl StandardInstrument for Piano {
    fn envelope(&self) -> (e: EnvelopeADSR)
        ensures
            e == piano_envelope(),
    {
        EnvelopeADSR {
            attack_time: 10_000_000_000,
            attack_amplitude: 1_000_000,
            decay_time: 10_000_000_000,
            sustain_amplitude: 800_000,
            release_time: 20_000_000_000,
        }
    }
}

impl Instrument for Brass {
    fn name(&self) -> (r: &'static str)
        ensures
            r@ == "Brass"@,
    {
        "Brass"
    }

    fn amplitude(&self, note: &Note, time: u64) -> (r: Option<u32>)
        ensures
            amplitude_view(r) == brass_envelope().spec_amplitude_at(
                time as int,
                note.start as int,
                end_view(note.end),
            ),
    {
        self.envelope().amplitude_at(time, note.start, note.end)
    }
}

impl StandardInstrument for Brass {
    fn envelope(&self) -> (e: EnvelopeADSR)
        ensures
            e == brass_envelope(),
    {
        EnvelopeADSR {
            attack_time: 200_000_000_000,
            attack_amplitude: 1_000_000,
            decay_time: 300_000_000_000,
            sustain_amplitude: 700_000,
            release_time: 20_000_000_000,
        }
    }
}

impl Instrument for DrumKit {
    fn name(&self) -> (r: &'static str)
        ensures
            r@ == "Drum Kit"@,
    {
        "Drum Kit"
    }

    fn amplitude(&self, note: &Note, time: u64) -> (r: Option<u32>)
        ensures
            amplitude_view(r) == drum_kit_envelope().spec_amplitude_at(
                time as int,
                note.start as int,
                end_view(note.end),
            ),
    {
        self.envelope().amplitude_at(time, note.start, note.end)
    }
}

impl StandardInstrument for DrumKit {
    fn envelope(&self) -> (e: EnvelopeADSR)
        ensures
            e == drum_kit_envelope(),
    {
        EnvelopeADSR {
            attack_time: 10_000_000_000,
            attack_amplitude: 1_000_000,
            decay_time: 150_000_000_000,
            sustain_amplitude: 0,
            release_time: 0,
        }
    }
}

/// The empty instrument plays nothing: every note given to it is finished.
impl Instrument for () {
    fn name(&self) -> (r: &'static str)
        ensures
            r@ == "Empty"@,
    {
        "Empty"
    }

    fn amplitude(&self, note: &Note, time: u64) -> (r: Option<u32>)
        ensures
            r is None,
    {
        None
    }
}

/// The instrument playing on a channel. `Empty` plays nothing: any note
/// given to it is finished at once.
#[derive(Debug, Clone, Copy, PartialEq, Eq, Structural)]
pub enum InstrumentKind {
    Empty,
    Piano,
    Brass,
    DrumKit,
}

/// The instrument that a General MIDI program selects. Programs 16 and 91
/// select instruments this synthesizer has no sound for; they play nothing.
pub open spec fn program_instrument(program: u8) -> InstrumentKind {
    if program == 16 || program == 91 {
        InstrumentKind::Empty
    } else if program == 60 {
        InstrumentKind::Brass
    } else {
        InstrumentKind::Piano
    }
}

/// The instrument that a General MIDI program (0 to 127) selects.
pub fn instrument_for_program(program: u8) -> (k: InstrumentKind)
    requires
        program < 128,
    ensures
        k == program_instrument(program),
{
    match program {
        16 => InstrumentKind::Empty,
        91 => InstrumentKind::Empty,
        60 => InstrumentKind::Brass,
        _ => InstrumentKind::Piano,
    }
}

impl InstrumentKind {
    /// The envelope of the instrument, if it sounds at all.
    pub open spec fn spec_envelope(self) -> Option<EnvelopeADSR> {
        match self {
            InstrumentKind::Empty => None,
            InstrumentKind::Piano => Some(piano_envelope()),
            InstrumentKind::Brass => Some(brass_envelope()),
            InstrumentKind::DrumKit => Some(drum_kit_envelope()),
        }
    }

    /// The heard level of `note` at `time` on this instrument; `None` when
    /// the note has finished (on `Empty`, always).
    pub open spec fn spec_amplitude(self, note: Note, time: int) -> Option<int> {
        match self.spec_envelope() {
            None => None,
            Some(env) => env.spec_amplitude_at(time, note.start as int, end_view(note.end)),
        }
    }

    /// The instrument's display name.
    pub fn name(&self) -> (r: &'static str)
        ensures
            r@ == match *self {
                InstrumentKind::Empty => "Empty"@,
                InstrumentKind::Piano => "Piano"@,
                InstrumentKind::Brass => "Brass"@,
                InstrumentKind::DrumKit => "Drum Kit"@,
            },
    {
        match self {
            InstrumentKind::Empty => ().name(),
            InstrumentKind::Piano => Piano.name(),
            InstrumentKind::Brass => Brass.name(),
            InstrumentKind::DrumKit => DrumKit.name(),
        }
    }

    /// The envelope of the instrument, if it sounds at all.
    pub fn envelope(&self) -> (e: Option<EnvelopeADSR>)
        ensures
            e == self.spec_envelope(),
    {
        match self {
            InstrumentKind::Empty => None,
            InstrumentKind::Piano => Some(Piano.envelope()),
            InstrumentKind::Brass => Some(Brass.envelope()),
            InstrumentKind::DrumKit => Some(DrumKit.envelope()),
        }
    }

    /// The heard level (millionths of full scale) of `note` at `time`;
    /// `None` when the note has finished and can be dropped.
    pub fn amplitude(&self, note: &Note, time: u64) -> (r: Option<u32>)
        ensures
            amplitude_view(r) == self.spec_amplitude(*note, time as int),
    {
        match self {
            InstrumentKind::Empty => ().amplitude(note, time),
            InstrumentKind::Piano => Piano.amplitude(note, time),
            InstrumentKind::Brass => Brass.amplitude(note, time),
            InstrumentKind::DrumKit => DrumKit.amplitude(note, time),
        }
    }
}

/// What a General MIDI program (0 to 127) plays: program 60 the brass,
/// programs 16 and 91 nothing, and every other program the piano.
pub proof fn lemma_program_instruments(program: u8)
    requires
        program < 128,
    ensures
        program != 16 && program != 60 && program != 91 ==> program_instrument(program)
            == InstrumentKind::Piano,
        program == 60 ==> program_instrument(program) == InstrumentKind::Brass,
        program == 16 || program == 91 ==> program_instrument(program) == InstrumentKind::Empty,
{
}

/// Only programs 16 and 91 select an instrument that plays nothing.
pub proof fn lemma_silent_programs(program: u8)
    requires
        program < 128,
    ensures
        (program_instrument(program) == InstrumentKind::Empty) == (program == 16 || program == 91),
{
}

} // verus!
