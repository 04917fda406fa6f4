use software_synth::instrument::InstrumentKind;
use software_synth::message::Message;
use software_synth::synth::{Synth, Voice};

/// Picoseconds in a microsecond.
const US: u64 = 1_000_000;

fn down(channel: u8, note: u8, velocity: u8) -> Message {
    Message::KeyDown { channel, note, velocity }
}

fn up(channel: u8, note: u8) -> Message {
    Message::KeyUp { channel, note }
}

#[test]
fn starts_with_pianos_and_a_drum_kit() {
    let s = Synth::new(None);
    for c in 0..16u8 {
        let expected = if c == 9 { InstrumentKind::DrumKit } else { InstrumentKind::Piano };
        assert_eq!(s.instrument(c), expected);
        assert_eq!(s.volume(c), 127);
    }
    assert_eq!(s.queued(), 0);
    assert!(s.note(0, 60).is_none());
}

#[test]
fn key_down_starts_a_note() {
    let mut s = Synth::new(None);
    let handled = s.update(1_000, vec![down(2, 60, 90)]);
    assert_eq!(handled, vec![(1_000, down(2, 60, 90))]);
    let n = s.note(2, 60).unwrap();
    assert_eq!((n.value, n.velocity, n.start, n.end), (60, 90, 1_000, None));
    assert!(s.note(3, 60).is_none());
}

#[test]
fn key_up_marks_the_release() {
    let mut s = Synth::new(None);
    s.update(1_000, vec![down(0, 64, 100)]);
    s.update(5_000, vec![up(0, 64)]);
    let n = s.note(0, 64).unwrap();
    assert_eq!((n.start, n.end), (1_000, Some(5_000)));
}

#[test]
fn key_up_of_a_silent_note_does_nothing() {
    let mut s = Synth::new(None);
    s.update(5_000, vec![up(0, 64)]);
    assert!(s.note(0, 64).is_none());
}

#[test]
fn key_down_again_restarts_the_note() {
    let mut s = Synth::new(None);
    s.update(1_000, vec![down(0, 64, 100), up(0, 64)]);
    s.update(2_000, vec![down(0, 64, 30)]);
    let n = s.note(0, 64).unwrap();
    assert_eq!((n.velocity, n.start, n.end), (30, 2_000, None));
}

#[test]
fn program_changes_pick_instruments() {
    let mut s = Synth::new(None);
    s.update(
        0,
        vec![
            Message::ProgramChange { channel: 0, program: 60 },
            Message::ProgramChange { channel: 1, program: 16 },
            Message::ProgramChange { channel: 2, program: 91 },
            Message::ProgramChange { channel: 3, program: 5 },
            Message::ProgramChange { channel: 9, program: 60 },
        ],
    );
    assert_eq!(s.instrument(0), InstrumentKind::Brass);
    assert_eq!(s.instrument(1), InstrumentKind::Empty);
    assert_eq!(s.instrument(2), InstrumentKind::Empty);
    assert_eq!(s.instrument(3), InstrumentKind::Piano);
    assert_eq!(s.instrument(9), InstrumentKind::DrumKit);
}

#[test]
fn percussion_keeps_its_drum_kit_even_for_any_program() {
    let mut s = Synth::new(None);
    s.update(0, vec![Message::ProgramChange { channel: 9, program: 200 }]);
    assert_eq!(s.instrument(9), InstrumentKind::DrumKit);
}

#[test]
fn volume_change_sets_the_channel_volume() {
    let mut s = Synth::new(None);
    s.update(0, vec![Message::VolumeChange { channel: 4, volume: 64 }]);
    assert_eq!(s.volume(4), 64);
    assert_eq!(s.volume(5), 127);
}

#[test]
fn queued_messages_play_when_due_in_order() {
    let song = vec![(100, down(0, 60, 80)), (100, down(0, 64, 80)), (200, up(0, 60)), (300, up(0, 64))];
    let mut s = Synth::new(Some(song));
    assert_eq!(s.queued(), 4);
    assert_eq!(s.update(50, vec![]), vec![]);
    assert_eq!(s.update(150, vec![]), vec![(100, down(0, 60, 80)), (100, down(0, 64, 80))]);
    assert_eq!(s.queued(), 2);
    let handled = s.update(250, vec![down(1, 70, 10)]);
    assert_eq!(handled, vec![(200, up(0, 60)), (250, down(1, 70, 10))]);
    assert_eq!(s.note(0, 60).unwrap().end, Some(200));
    assert_eq!(s.note(0, 64).unwrap().start, 100);
    assert_eq!(s.update(1_000, vec![]), vec![(300, up(0, 64))]);
    assert_eq!(s.queued(), 0);
}

#[test]
fn invalid_due_messages_are_detected() {
    let s = Synth::new(Some(vec![(10, down(16, 60, 1)), (20, down(0, 60, 1))]));
    assert!(!s.due_are_valid(10));
    assert!(!s.due_are_valid(20));
    assert!(s.due_are_valid(5));
    let s = Synth::new(Some(vec![(10, down(0, 60, 1)), (20, Message::ProgramChange { channel: 3, program: 128 })]));
    assert!(s.due_are_valid(10));
    assert!(!s.due_are_valid(20));
    let s = Synth::new(Some(vec![(10, Message::ProgramChange { channel: 9, program: 200 })]));
    assert!(s.due_are_valid(10));
}

#[test]
fn messages_validity() {
    assert!(down(15, 0, 0).is_valid());
    assert!(!down(16, 0, 0).is_valid());
    assert!(!up(200, 0).is_valid());
    assert!(!Message::VolumeChange { channel: 16, volume: 0 }.is_valid());
    assert!(Message::ProgramChange { channel: 9, program: 255 }.is_valid());
    assert!(!Message::ProgramChange { channel: 1, program: 128 }.is_valid());
    assert!(!Message::ProgramChange { channel: 16, program: 1 }.is_valid());
    assert_eq!(Message::VolumeChange { channel: 7, volume: 0 }.channel(), 7);
}

#[test]
fn sounding_voices_report_levels() {
    let mut s = Synth::new(None);
    s.update(0, vec![down(0, 60, 100), Message::VolumeChange { channel: 0, volume: 50 }]);
    let voices = s.sounding_voices(5_000 * US);
    assert_eq!(
        voices,
        vec![Voice {
            channel: 0,
            instrument: InstrumentKind::Piano,
            volume: 50,
            note: 60,
            velocity: 100,
            amplitude: 500_000,
        }]
    );
}

#[test]
fn released_notes_are_dropped_after_their_release() {
    let mut s = Synth::new(None);
    s.update(0, vec![down(0, 60, 100), down(0, 62, 100)]);
    s.update(30_000 * US, vec![up(0, 60)]);
    let mut voices = s.sounding_voices(40_000 * US);
    voices.sort_by_key(|v| v.note);
    assert_eq!(voices.len(), 2);
    assert_eq!(voices[0].amplitude, 400_000);
    assert_eq!(voices[1].amplitude, 800_000);
    let voices = s.sounding_voices(50_000 * US);
    assert_eq!(voices.len(), 1);
    assert_eq!(voices[0].note, 62);
    assert!(s.note(0, 60).is_none());
    assert!(s.note(0, 62).is_some());
}

#[test]
fn notes_on_an_empty_instrument_are_dropped_at_once() {
    let mut s = Synth::new(None);
    s.update(0, vec![Message::ProgramChange { channel: 1, program: 16 }, down(1, 60, 100)]);
    assert!(s.note(1, 60).is_some());
    assert!(s.sounding_voices(0).is_empty());
    assert!(s.note(1, 60).is_none());
}

#[test]
fn drum_notes_stop_when_let_go() {
    let mut s = Synth::new(None);
    s.update(0, vec![down(9, 36, 127)]);
    assert_eq!(s.sounding_voices(1_000_000 * US).len(), 1);
    s.update(1_000_001 * US, vec![up(9, 36)]);
    assert!(s.sounding_voices(1_000_001 * US).is_empty());
}

#[test]
fn many_channels_sound_together() {
    let mut s = Synth::new(None);
    let msgs: Vec<Message> = (0..16u8).map(|c| down(c, 40 + c, 100)).collect();
    s.update(0, msgs);
    let mut voices = s.sounding_voices(10_000 * US);
    voices.sort_by_key(|v| v.channel);
    assert_eq!(voices.len(), 16);
    for (c, v) in voices.iter().enumerate() {
        assert_eq!(v.channel as usize, c);
        assert_eq!(v.note as usize, 40 + c);
        assert_eq!(v.amplitude, 1_000_000);
        let expected = if c == 9 { InstrumentKind::DrumKit } else { InstrumentKind::Piano };
        assert_eq!(v.instrument, expected);
    }
}

#[test]
fn notes_of_one_channel_sound_together() {
    let mut s = Synth::new(None);
    s.update(0, vec![down(0, 60, 100), down(0, 64, 100), down(0, 67, 100)]);
    s.update(1_000, vec![up(0, 64)]);
    assert_eq!(s.note(0, 60).unwrap().end, None);
    assert_eq!(s.note(0, 64).unwrap().end, Some(1_000));
    assert_eq!(s.note(0, 67).unwrap().start, 0);
    assert_eq!(s.sounding_voices(2_000).len(), 3);
}
