use software_synth::envelope::{EnvelopeADSR, FULL_SCALE, SILENCE_THRESHOLD};
use software_synth::instrument::{
    instrument_for_program, Brass, DrumKit, Instrument, InstrumentKind, Note, Piano, StandardInstrument,
};

/// Picoseconds in a microsecond.
const US: u64 = 1_000_000;

fn piano() -> EnvelopeADSR {
    Piano.envelope()
}

#[test]
fn silent_before_the_note_starts() {
    assert_eq!(piano().amplitude_at(999 * US, 1_000 * US, None), Some(0));
    assert_eq!(piano().amplitude_at(999 * US, 1_000 * US, Some(500 * US)), Some(0));
}

#[test]
fn attack_ramps_up() {
    assert_eq!(piano().amplitude_at(5_000 * US, 0, None), Some(500_000));
    assert_eq!(piano().amplitude_at(10_000 * US, 0, None), Some(FULL_SCALE));
}

#[test]
fn decay_falls_to_sustain() {
    assert_eq!(piano().amplitude_at(15_000 * US, 0, None), Some(900_000));
    assert_eq!(piano().amplitude_at(20_000 * US, 0, None), Some(800_000));
    assert_eq!(piano().amplitude_at(1_000_000 * US, 0, None), Some(800_000));
}

#[test]
fn release_fades_then_finishes() {
    // Let go at 30 ms, while sustaining at 80%.
    assert_eq!(piano().amplitude_at(30_000 * US, 0, Some(30_000 * US)), Some(800_000));
    assert_eq!(piano().amplitude_at(35_000 * US, 0, Some(30_000 * US)), Some(600_000));
    assert_eq!(piano().amplitude_at(49_999 * US, 0, Some(30_000 * US)), Some(0));
    assert_eq!(piano().amplitude_at(50_000 * US, 0, Some(30_000 * US)), None);
    assert_eq!(piano().amplitude_at(90_000 * US, 0, Some(30_000 * US)), None);
}

#[test]
fn release_during_attack_starts_from_the_level_reached() {
    // Let go halfway through the attack: the release starts from 50%.
    assert_eq!(piano().amplitude_at(5_000 * US, 0, Some(5_000 * US)), Some(500_000));
    assert_eq!(piano().amplitude_at(15_000 * US, 0, Some(5_000 * US)), Some(250_000));
}

#[test]
fn quiet_levels_are_silence() {
    // 5 us into a 10 ms attack is 500 millionths, under the threshold.
    assert_eq!(piano().amplitude_at(5 * US, 0, None), Some(0));
    assert_eq!(piano().amplitude_at(10 * US, 0, None), Some(SILENCE_THRESHOLD));
}

#[test]
fn release_fades_monotonically() {
    let env = Brass.envelope();
    let mut last = env.amplitude_at(600_000 * US, 0, Some(600_000 * US)).unwrap();
    for t in (600_000 * US..620_000 * US).step_by(1_000_000_000) {
        match env.amplitude_at(t, 0, Some(600_000 * US)) {
            Some(a) => {
                assert!(a <= last);
                last = a;
            }
            None => panic!("finished before the end of its release"),
        }
    }
    assert_eq!(env.amplitude_at(620_000 * US, 0, Some(600_000 * US)), None);
}

#[test]
fn a_finished_note_stays_finished() {
    let env = piano();
    for t in [50_000 * US, 60_000 * US, 1_000_000 * US, u64::MAX] {
        assert_eq!(env.amplitude_at(t, 0, Some(30_000 * US)), None);
    }
}

#[test]
fn held_note_never_finishes() {
    let env = DrumKit.envelope();
    assert_eq!(env.amplitude_at(5_000 * US, 0, None), Some(500_000));
    assert_eq!(env.amplitude_at(85_000 * US, 0, None), Some(500_000));
    assert_eq!(env.amplitude_at(10_000_000 * US, 0, None), Some(0));
}

#[test]
fn drum_with_no_release_stops_at_once() {
    let env = DrumKit.envelope();
    assert_eq!(env.amplitude_at(19_999 * US, 0, Some(20_000 * US)), Some(933_340));
    assert_eq!(env.amplitude_at(20_000 * US, 0, Some(20_000 * US)), None);
}

#[test]
fn amplitude_is_bounded_by_the_peak() {
    let env = EnvelopeADSR {
        attack_time: 3,
        attack_amplitude: 500_000,
        decay_time: 7,
        sustain_amplitude: 900_000,
        release_time: 11,
    };
    for on in [0u64, 4] {
        for t in 0..40u64 {
            for off in [None, Some(2u64), Some(9), Some(25)] {
                if let Some(a) = env.amplitude_at(t, on, off) {
                    assert!(a <= 900_000);
                }
            }
        }
    }
}

#[test]
fn instrument_names() {
    assert_eq!(Piano.name(), "Piano");
    assert_eq!(Brass.name(), "Brass");
    assert_eq!(DrumKit.name(), "Drum Kit");
    assert_eq!(InstrumentKind::Empty.name(), "Empty");
    assert_eq!(InstrumentKind::DrumKit.name(), "Drum Kit");
}

#[test]
fn instrument_envelopes() {
    let b = Brass.envelope();
    assert_eq!(
        (b.attack_time, b.attack_amplitude, b.decay_time, b.sustain_amplitude, b.release_time),
        (200_000 * US, 1_000_000, 300_000 * US, 700_000, 20_000 * US)
    );
    assert_eq!(InstrumentKind::Empty.envelope(), None);
    assert_eq!(InstrumentKind::Piano.envelope(), Some(piano()));
}

#[test]
fn programs_select_instruments() {
    assert_eq!(instrument_for_program(0), InstrumentKind::Piano);
    assert_eq!(instrument_for_program(7), InstrumentKind::Piano);
    assert_eq!(instrument_for_program(60), InstrumentKind::Brass);
    assert_eq!(instrument_for_program(16), InstrumentKind::Empty);
    assert_eq!(instrument_for_program(91), InstrumentKind::Empty);
    assert_eq!(instrument_for_program(127), InstrumentKind::Piano);
}

#[test]
fn empty_instrument_finishes_every_note() {
    let note = Note { value: 60, velocity: 100, start: 0, end: None };
    assert_eq!(InstrumentKind::Empty.amplitude(&note, 5_000 * US), None);
    assert_eq!(InstrumentKind::Piano.amplitude(&note, 5_000 * US), Some(500_000));
}

#[test]
fn standard_instruments_follow_their_envelopes() {
    let note = Note { value: 50, velocity: 1, start: 100_000 * US, end: Some(400_000 * US) };
    assert_eq!(Brass.amplitude(&note, 200_000 * US), Some(500_000));
    assert_eq!(Brass.amplitude(&note, 419_999 * US), Some(0));
    assert_eq!(Brass.amplitude(&note, 420_000 * US), None);
    assert_eq!(().amplitude(&note, 200_000 * US), None);
    assert_eq!(().name(), "Empty");
    assert_eq!(InstrumentKind::Brass.amplitude(&note, 200_000 * US), Some(500_000));
}

#[test]
fn zero_attack_starts_at_attack_amplitude() {
    let e = EnvelopeADSR {
        attack_time: 0,
        attack_amplitude: 900_000,
        decay_time: 10_000 * US,
        sustain_amplitude: 500_000,
        release_time: 0,
    };
    assert_eq!(e.amplitude_at(999 * US, 1_000 * US, None), Some(0));
    assert_eq!(e.amplitude_at(1_000 * US, 1_000 * US, None), Some(900_000));
    assert_eq!(e.amplitude_at(6_000 * US, 1_000 * US, None), Some(700_000));
    assert_eq!(e.amplitude_at(20_000 * US, 1_000 * US, None), Some(500_000));
    assert_eq!(e.amplitude_at(20_000 * US, 1_000 * US, Some(20_000 * US)), None);
}
