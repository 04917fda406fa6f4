use std::collections::HashSet;
use software_synth::keyboard::{Keyboard, KeyboardKey, UiEvent};
use software_synth::message::Message;

fn sorted(mut v: Vec<Message>) -> Vec<Message> {
    v.sort_by_key(|m| match m {
        Message::KeyDown { note, .. } => *note,
        Message::KeyUp { note, .. } => *note,
        _ => 0,
    });
    v
}

#[test]
fn keys_play_notes() {
    assert_eq!(KeyboardKey::A.note(), 57);
    assert_eq!(KeyboardKey::W.note(), 58);
    assert_eq!(KeyboardKey::D.note(), 60);
    assert_eq!(KeyboardKey::Semicolon.note(), 72);
    assert_eq!(KeyboardKey::Backslash.note(), 76);
}

#[test]
fn pressing_and_letting_go() {
    let mut kb = Keyboard::new();
    assert_eq!(kb.channel(), 0);
    let f = kb.frame(&vec![KeyboardKey::A, KeyboardKey::D], &vec![]);
    assert!(f.released.is_empty());
    assert_eq!(
        sorted(f.struck),
        vec![
            Message::KeyDown { channel: 0, note: 57, velocity: 100 },
            Message::KeyDown { channel: 0, note: 60, velocity: 100 },
        ]
    );
    assert!(f.moved.is_empty());
    assert!(!f.quit);
    let f = kb.frame(&vec![KeyboardKey::D, KeyboardKey::G], &vec![]);
    assert_eq!(f.released, vec![Message::KeyUp { channel: 0, note: 57 }]);
    assert_eq!(f.struck, vec![Message::KeyDown { channel: 0, note: 64, velocity: 100 }]);
}

#[test]
fn steady_keys_send_nothing() {
    let mut kb = Keyboard::new();
    kb.frame(&vec![KeyboardKey::A], &vec![]);
    let f = kb.frame(&vec![KeyboardKey::A, KeyboardKey::A], &vec![UiEvent::Other]);
    assert!(f.released.is_empty() && f.struck.is_empty() && f.moved.is_empty() && !f.quit);
}

#[test]
fn changing_channel_moves_held_notes() {
    let mut kb = Keyboard::new();
    kb.frame(&vec![KeyboardKey::A], &vec![]);
    let f = kb.frame(&vec![KeyboardKey::A], &vec![UiEvent::ChannelUp]);
    assert_eq!(kb.channel(), 1);
    assert_eq!(
        f.moved,
        vec![
            Message::KeyUp { channel: 0, note: 57 },
            Message::KeyDown { channel: 1, note: 57, velocity: 100 },
        ]
    );
    let f = kb.frame(&vec![KeyboardKey::W], &vec![]);
    assert_eq!(f.released, vec![Message::KeyUp { channel: 1, note: 57 }]);
    assert_eq!(f.struck, vec![Message::KeyDown { channel: 1, note: 58, velocity: 100 }]);
}

#[test]
fn channels_wrap_around() {
    let mut kb = Keyboard::new();
    let f = kb.frame(&vec![], &vec![UiEvent::ChannelDown]);
    assert_eq!(kb.channel(), 15);
    assert!(f.moved.is_empty());
    kb.frame(&vec![], &vec![UiEvent::ChannelUp]);
    assert_eq!(kb.channel(), 0);
    kb.frame(&vec![], &vec![UiEvent::ChannelUp; 16]);
    assert_eq!(kb.channel(), 0);
    kb.frame(&vec![], &vec![UiEvent::ChannelUp, UiEvent::ChannelDown, UiEvent::ChannelUp]);
    assert_eq!(kb.channel(), 1);
}

#[test]
fn up_and_down_in_one_frame_move_nothing() {
    let mut kb = Keyboard::new();
    kb.frame(&vec![KeyboardKey::A], &vec![]);
    let f = kb.frame(&vec![KeyboardKey::A], &vec![UiEvent::ChannelUp, UiEvent::ChannelDown]);
    assert_eq!(kb.channel(), 0);
    assert!(f.moved.is_empty());
}

#[test]
fn quit_stops_the_frame() {
    let mut kb = Keyboard::new();
    let f = kb.frame(&vec![KeyboardKey::A], &vec![UiEvent::ChannelUp, UiEvent::Quit, UiEvent::ChannelUp]);
    assert!(f.quit);
    assert_eq!(kb.channel(), 0);
    assert!(f.moved.is_empty());
    assert_eq!(f.struck, vec![Message::KeyDown { channel: 0, note: 57, velocity: 100 }]);
}

#[test]
fn keyboard_messages_are_accepted_by_the_synth() {
    let mut kb = Keyboard::new();
    let mut synth = software_synth::synth::Synth::new(None);
    let f = kb.frame(&vec![KeyboardKey::K], &vec![UiEvent::ChannelDown]);
    let mut all = f.released.clone();
    all.extend(f.struck.clone());
    all.extend(f.moved.clone());
    assert!(all.iter().all(|m| m.is_valid()));
    synth.update(0, all);
    assert!(synth.note(15, 69).is_some());
    assert_eq!(synth.note(0, 69).unwrap().end, Some(0));
}

#[test]
fn presses_and_releases_alternate_over_many_frames() {
    let mut kb = Keyboard::new();
    let mut held: HashSet<(u8, u8)> = HashSet::new();
    let frames: Vec<(Vec<KeyboardKey>, Vec<UiEvent>)> = vec![
        (vec![KeyboardKey::A, KeyboardKey::S], vec![]),
        (vec![KeyboardKey::S, KeyboardKey::D], vec![UiEvent::ChannelUp]),
        (vec![KeyboardKey::D], vec![UiEvent::ChannelDown, UiEvent::ChannelDown]),
        (vec![], vec![]),
        (vec![KeyboardKey::K], vec![UiEvent::Other]),
    ];
    for (pressed, events) in frames {
        let f = kb.frame(&pressed, &events);
        for m in f.released.iter().chain(f.struck.iter()).chain(f.moved.iter()) {
            match *m {
                Message::KeyDown { channel, note, .. } => assert!(held.insert((channel, note))),
                Message::KeyUp { channel, note } => assert!(held.remove(&(channel, note))),
                _ => panic!("the keyboard only sends key messages"),
            }
        }
        let expected: HashSet<(u8, u8)> = pressed.iter().map(|k| (kb.channel(), k.note())).collect();
        assert_eq!(held, expected);
    }
}

#[test]
fn keyboard_messages_stay_on_the_keys() {
    let mut kb = Keyboard::new();
    let all_keys = vec![
        KeyboardKey::A, KeyboardKey::W, KeyboardKey::D, KeyboardKey::Semicolon, KeyboardKey::Backslash,
    ];
    let frames: Vec<(Vec<KeyboardKey>, Vec<UiEvent>)> = vec![
        (all_keys.clone(), vec![]),
        (vec![KeyboardKey::A], vec![UiEvent::ChannelUp]),
        (all_keys.clone(), vec![UiEvent::ChannelDown, UiEvent::ChannelDown]),
        (vec![], vec![]),
    ];
    let mut count = 0;
    for (keys, events) in frames.iter() {
        let f = kb.frame(keys, events);
        for m in f.released.iter().chain(f.struck.iter()).chain(f.moved.iter()) {
            count += 1;
            match m {
                Message::KeyDown { note, velocity, .. } => {
                    assert!((57..=76).contains(note));
                    assert_eq!(*velocity, 100);
                }
                Message::KeyUp { note, .. } => assert!((57..=76).contains(note)),
                _ => panic!("keyboard sent {:?}", m),
            }
        }
    }
    assert!(count > 0);
}
