use software_synth::message::Message;
use software_synth::midi::{get_messages, sort_by_time, tempo_from_bytes, MetaEvent, MidiEvent, MidiHandler};

/// Picoseconds in a microsecond.
const US: u64 = 1_000_000;

fn handler_with(events: Vec<(u64, MidiEvent)>) -> MidiHandler {
    let mut h = MidiHandler::new();
    h.events = events;
    h
}

#[test]
fn tempo_bytes_are_big_endian() {
    assert_eq!(tempo_from_bytes(&vec![0x07, 0xA1, 0x20]), 500_000);
    assert_eq!(tempo_from_bytes(&vec![]), 0);
    assert_eq!(tempo_from_bytes(&vec![0x12, 0x34, 0x56, 0x78]), 0x1234_5678);
    // Only the last four bytes count.
    assert_eq!(tempo_from_bytes(&vec![0xff, 0x12, 0x34, 0x56, 0x78]), 0x1234_5678);
}

#[test]
fn new_handler_has_default_tempo() {
    let h = MidiHandler::new();
    assert_eq!(h.micros_per_quarter_note, 500_000);
    assert_eq!(h.ticks_per_quarter_note, 0);
    assert!(h.events.is_empty());
    assert_eq!(h.elapsed, 0);
}

#[test]
fn events_are_timed_by_ticks_and_tempo() {
    let mut h = MidiHandler::new();
    h.header(1, 2, 480);
    assert_eq!(h.ticks_per_quarter_note, 480);
    let on = MidiEvent::NoteOn { ch: 0, note: 60, velocity: 100 };
    h.midi_event(0, on);
    h.midi_event(480, on);
    h.midi_event(240, on);
    let times: Vec<u64> = h.events.iter().map(|e| e.0).collect();
    assert_eq!(times, vec![0, 500_000 * US, 750_000 * US]);
}

#[test]
fn tempo_changes_affect_later_events() {
    let mut h = MidiHandler::new();
    h.header(1, 1, 96);
    let on = MidiEvent::NoteOn { ch: 0, note: 60, velocity: 100 };
    h.midi_event(96, on);
    h.meta_event(0, &MetaEvent::SetTempo, &vec![0x0F, 0x42, 0x40]);
    assert_eq!(h.micros_per_quarter_note, 1_000_000);
    h.midi_event(48, on);
    let times: Vec<u64> = h.events.iter().map(|e| e.0).collect();
    assert_eq!(times, vec![500_000 * US, 1_000_000 * US]);
}

#[test]
fn other_meta_events_and_their_delta_change_nothing() {
    let mut h = MidiHandler::new();
    h.header(1, 1, 96);
    h.meta_event(96, &MetaEvent::TextEvent, &vec![1, 2, 3]);
    assert_eq!(h.micros_per_quarter_note, 500_000);
    h.midi_event(0, MidiEvent::NoteOff { ch: 0, note: 1, velocity: 0 });
    assert_eq!(h.events[0].0, 0);
}

#[test]
fn each_track_restarts_the_clock() {
    let mut h = MidiHandler::new();
    h.header(1, 2, 100);
    let on = MidiEvent::NoteOn { ch: 0, note: 60, velocity: 100 };
    h.track_change();
    h.midi_event(100, on);
    h.track_change();
    assert_eq!(h.elapsed, 0);
    h.midi_event(50, on);
    let times: Vec<u64> = h.events.iter().map(|e| e.0).collect();
    assert_eq!(times, vec![500_000 * US, 250_000 * US]);
}

#[test]
fn sorting_is_stable() {
    let a = MidiEvent::Unknown { ch: 1 };
    let b = MidiEvent::Unknown { ch: 2 };
    let c = MidiEvent::Unknown { ch: 3 };
    let d = MidiEvent::Unknown { ch: 4 };
    let sorted = sort_by_time(&vec![(5, a), (1, b), (5, c), (0, d), (1, a)]);
    assert_eq!(sorted, vec![(0, d), (1, b), (1, a), (5, a), (5, c)]);
    assert_eq!(sort_by_time(&vec![]), vec![]);
}

#[test]
fn events_become_messages_in_time_order() {
    let h = handler_with(vec![
        (10, MidiEvent::NoteOn { ch: 0, note: 60, velocity: 100 }),
        (20, MidiEvent::NoteOff { ch: 0, note: 60, velocity: 64 }),
        (0, MidiEvent::ProgramChange { ch: 1, program: 60 }),
        (15, MidiEvent::NoteOn { ch: 1, note: 62, velocity: 0 }),
        (5, MidiEvent::ControlChange { ch: 1, control: 7, data: 90 }),
        (5, MidiEvent::ControlChange { ch: 1, control: 10, data: 90 }),
        (7, MidiEvent::PitchBendChange { ch: 0, data: -5 }),
        (8, MidiEvent::ChannelPressure { ch: 0, pressure: 1 }),
        (9, MidiEvent::PolyphonicKeyPressure { ch: 0, note: 1, velocity: 2 }),
    ]);
    let messages = get_messages(&h, None);
    assert_eq!(
        messages,
        vec![
            (0, Message::ProgramChange { channel: 1, program: 60 }),
            (5, Message::VolumeChange { channel: 1, volume: 90 }),
            (10, Message::KeyDown { channel: 0, note: 60, velocity: 100 }),
            (15, Message::KeyUp { channel: 1, note: 62 }),
            (20, Message::KeyUp { channel: 0, note: 60 }),
        ]
    );
}

#[test]
fn solo_keeps_one_channel() {
    let h = handler_with(vec![
        (10, MidiEvent::NoteOn { ch: 0, note: 60, velocity: 100 }),
        (10, MidiEvent::NoteOn { ch: 3, note: 61, velocity: 100 }),
        (20, MidiEvent::NoteOff { ch: 3, note: 61, velocity: 0 }),
        (20, MidiEvent::ControlChange { ch: 0, control: 7, data: 1 }),
    ]);
    let messages = get_messages(&h, Some(3));
    assert_eq!(
        messages,
        vec![
            (10, Message::KeyDown { channel: 3, note: 61, velocity: 100 }),
            (20, Message::KeyUp { channel: 3, note: 61 }),
        ]
    );
    assert!(get_messages(&h, Some(5)).is_empty());
}

#[test]
fn equal_times_keep_file_order() {
    let h = handler_with(vec![
        (3, MidiEvent::NoteOff { ch: 0, note: 60, velocity: 0 }),
        (3, MidiEvent::NoteOn { ch: 0, note: 60, velocity: 9 }),
        (1, MidiEvent::NoteOn { ch: 0, note: 60, velocity: 9 }),
    ]);
    let messages = get_messages(&h, None);
    assert_eq!(
        messages,
        vec![
            (1, Message::KeyDown { channel: 0, note: 60, velocity: 9 }),
            (3, Message::KeyUp { channel: 0, note: 60 }),
            (3, Message::KeyDown { channel: 0, note: 60, velocity: 9 }),
        ]
    );
}

#[test]
fn sorting_matches_a_stable_sort_on_many_events() {
    let mut seed: u64 = 12345;
    let mut events = Vec::new();
    for i in 0..2_000u32 {
        seed = seed.wrapping_mul(6364136223846793005).wrapping_add(1442695040888963407);
        let t = (seed >> 33) % 50;
        events.push((t, MidiEvent::Unknown { ch: (i % 256) as u8 }));
    }
    let mut expected = events.clone();
    expected.sort_by_key(|e| e.0);
    assert_eq!(sort_by_time(&events), expected);
}

#[test]
fn solo_is_the_full_list_filtered_by_channel() {
    let h = handler_with(vec![
        (30, MidiEvent::NoteOn { ch: 2, note: 64, velocity: 90 }),
        (10, MidiEvent::NoteOn { ch: 0, note: 60, velocity: 100 }),
        (10, MidiEvent::ProgramChange { ch: 2, program: 60 }),
        (20, MidiEvent::NoteOff { ch: 0, note: 60, velocity: 0 }),
        (20, MidiEvent::ControlChange { ch: 2, control: 7, data: 50 }),
        (5, MidiEvent::NoteOn { ch: 2, note: 62, velocity: 0 }),
        (40, MidiEvent::PitchBendChange { ch: 2, data: 3 }),
    ]);
    let all = get_messages(&h, None);
    for c in 0u8..16 {
        let kept: Vec<(u64, Message)> = all.iter().copied().filter(|m| m.1.channel() == c).collect();
        assert_eq!(get_messages(&h, Some(c)), kept);
    }
    assert_eq!(
        get_messages(&h, Some(2)),
        vec![
            (5, Message::KeyUp { channel: 2, note: 62 }),
            (10, Message::ProgramChange { channel: 2, program: 60 }),
            (20, Message::VolumeChange { channel: 2, volume: 50 }),
            (30, Message::KeyDown { channel: 2, note: 64, velocity: 90 }),
        ]
    );
}
