use std::collections::HashSet;
use vstd::prelude::*;
use vstd::std_specs::iter::IteratorSpec;
use crate::message::{Message, NUM_CHANNELS};
use crate::seq_facts::{lemma_push_contains, lemma_push_no_duplicates};

verus! {

broadcast use vstd::std_specs::hash::group_hash_axioms;

/// The computer keys that play notes: the home row plays the white keys and
/// the row above it the black keys, from A (note 57) to backslash (note 76).
#[derive(Debug, Clone, Copy, PartialEq, Eq, Structural)]
pub enum KeyboardKey {
    A,
    W,
    S,
    D,
    R,
    F,
    T,
    G,
    H,
    U,
    J,
    I,
    K,
    O,
    L,
    Semicolon,
    LeftBracket,
    Apostrophe,
    RightBracket,
    Backslash,
}

/// What the window reports besides the keys held: a request to quit (the
/// window closed, or Escape pressed), the Up or Down arrow pressed, or
/// anything else.
#[derive(Debug, Clone, Copy, PartialEq, Eq, Structural)]
pub enum UiEvent {
    Quit,
    ChannelUp,
    ChannelDown,
    Other,
}

/// The velocity of notes played from the computer keyboard.
pub const KEYBOARD_VELOCITY: u8 = 100;

impl KeyboardKey {
    pub open spec fn spec_note(&self) -> u8 {
        match *self {
            KeyboardKey::A => 57,
            KeyboardKey::W => 58,
            KeyboardKey::S => 59,
            KeyboardKey::D => 60,
            KeyboardKey::R => 61,
            KeyboardKey::F => 62,
            KeyboardKey::T => 63,
            KeyboardKey::G => 64,
            KeyboardKey::H => 65,
            KeyboardKey::U => 66,
            KeyboardKey::J => 67,
            KeyboardKey::I => 68,
            KeyboardKey::K => 69,
            KeyboardKey::O => 70,
            KeyboardKey::L => 71,
            KeyboardKey::Semicolon => 72,
            KeyboardKey::LeftBracket => 73,
            KeyboardKey::Apostrophe => 74,
            KeyboardKey::RightBracket => 75,
            KeyboardKey::Backslash => 76,
        }
    }

    /// The MIDI note the key plays.
    #[verifier::when_used_as_spec(spec_note)]
    pub fn note(&self) -> (n: u8)
        ensures
            n == self.spec_note(),
    {
        match self {
            KeyboardKey::A => 57,
            KeyboardKey::W => 58,
            KeyboardKey::S => 59,
            KeyboardKey::D => 60,
            KeyboardKey::R => 61,
            KeyboardKey::F => 62,
            KeyboardKey::T => 63,
            KeyboardKey::G => 64,
            KeyboardKey::H => 65,
            KeyboardKey::U => 66,
            KeyboardKey::J => 67,
            KeyboardKey::I => 68,
            KeyboardKey::K => 69,
            KeyboardKey::O => 70,
            KeyboardKey::L => 71,
            KeyboardKey::Semicolon => 72,
            KeyboardKey::LeftBracket => 73,
            KeyboardKey::Apostrophe => 74,
            KeyboardKey::RightBracket => 75,
            KeyboardKey::Backslash => 76,
        }
    }
}

/// A note that one of the keys plays (57 to 76).
pub open spec fn keyboard_note(n: u8) -> bool {
    57 <= n <= 76
}

/// A message the keyboard can send: a release of one of its notes, or a
/// press of one of its notes at the keyboard velocity.
pub open spec fn keyboard_message(m: Message) -> bool {
    match m {
        Message::KeyDown { note, velocity, .. } => keyboard_note(note) && velocity
            == KEYBOARD_VELOCITY,
        Message::KeyUp { note, .. } => keyboard_note(note),
        _ => false,
    }
}

/// The notes that a set of held keys plays.
pub open spec fn held_notes(pressed: Seq<KeyboardKey>) -> Set<u8> {
    Set::new(|n: u8| exists|i: int| 0 <= i < pressed.len() && (#[trigger] pressed[i]).spec_note() == n)
}

/// The channel after the Up and Down arrows among `events` (wrapping
/// around the sixteen channels), up to the first request to quit.
pub open spec fn channel_after(channel: u8, events: Seq<UiEvent>) -> u8
    decreases events.len(),
{
    if events.len() == 0 {
        channel
    } else {
        let c = channel_after(channel, events.drop_last());
        if events.subrange(0, events.len() - 1).contains(UiEvent::Quit) {
            c
        } else {
            match events.last() {
                UiEvent::ChannelUp => ((c + 1) % 16) as u8,
                UiEvent::ChannelDown => if c == 0 {
                    15u8
                } else {
                    (c - 1) as u8
                },
                _ => c,
            }
        }
    }
}

/// The elements of `s` that are (`inside`) or are not in `set`, in order.
pub open spec fn keep(s: Seq<u8>, set: Set<u8>, inside: bool) -> Seq<u8>
    decreases s.len(),
{
    if s.len() == 0 {
        Seq::empty()
    } else if set.contains(s.last()) == inside {
        keep(s.drop_last(), set, inside).push(s.last())
    } else {
        keep(s.drop_last(), set, inside)
    }
}

/// Key releases on `channel` for each of `notes`.
pub open spec fn releases(notes: Seq<u8>, channel: u8) -> Seq<Message> {
    notes.map_values(|n: u8| Message::KeyUp { channel, note: n })
}

/// Key presses on `channel` for each of `notes`.
pub open spec fn presses(notes: Seq<u8>, channel: u8) -> Seq<Message> {
    notes.map_values(|n: u8| Message::KeyDown { channel, note: n, velocity: KEYBOARD_VELOCITY })
}

/// For each of `notes`, its release on channel `from` followed by its press
/// on channel `to`.
pub open spec fn moves(notes: Seq<u8>, from: u8, to: u8) -> Seq<Message>
    decreases notes.len(),
{
    if notes.len() == 0 {
        Seq::empty()
    } else {
        moves(notes.drop_last(), from, to).push(Message::KeyUp { channel: from, note: notes.last() }).push(
            Message::KeyDown { channel: to, note: notes.last(), velocity: KEYBOARD_VELOCITY },
        )
    }
}

/// `notes` lists each element of `set` once.
pub open spec fn enumerates(notes: Seq<u8>, set: Set<u8>) -> bool {
    notes.no_duplicates() && notes.to_set() == set
}

/// What one frame of the keyboard front end sends and decides: the key
/// releases and key presses for the keys that changed, the releases and
/// presses that move the held notes to a new channel, and whether to quit.
pub struct Frame {
    pub released: Vec<Message>,
    pub struck: Vec<Message>,
    pub moved: Vec<Message>,
    pub quit: bool,
}

/// The computer keyboard as an instrument: the channel it plays on and the
/// notes whose keys are held.
pub struct Keyboard {
    channel: u8,
    keys: HashSet<u8>,
}

impl Keyboard {
    pub closed spec fn spec_channel(&self) -> u8 {
        self.channel
    }

    pub closed spec fn held(&self) -> Set<u8> {
        self.keys@
    }

    /// The keyboard is on one of the sixteen channels and holds only notes
    /// that its keys play.
    pub open spec fn well_formed(&self) -> bool {
        &&& self.spec_channel() < NUM_CHANNELS
        &&& forall|n: u8| #[trigger] self.held().contains(n) ==> keyboard_note(n)
    }

    /// A keyboard on the first channel with no keys held.
    pub fn new() -> (kb: Keyboard)
        ensures
            kb.well_formed(),
            kb.spec_channel() == 0,
            kb.held() == Set::<u8>::empty(),
    {
        Keyboard { channel: 0, keys: HashSet::new() }
    }

    /// The channel the keyboard plays on.
    #[verifier::when_used_as_spec(spec_channel)]
    pub fn channel(&self) -> (c: u8)
        ensures
            c == self.spec_channel(),
    {
        self.channel
    }
}

proof fn lemma_keep(s: Seq<u8>, set: Set<u8>, inside: bool)
    ensures
        forall|k: u8| #[trigger] keep(s, set, inside).contains(k) <==> s.contains(k) && set.contains(k) == inside,
        s.no_duplicates() ==> keep(s, set, inside).no_duplicates(),
    decreases s.len(),
{
    if s.len() > 0 {
        let rest = s.drop_last();
        let last = s.last();
        lemma_keep(rest, set, inside);
        assert(s == rest.push(last));
        lemma_push_contains(rest, last);
        lemma_push_contains(keep(rest, set, inside), last);
        if s.no_duplicates() {
            assert(!rest.contains(last)) by {
                if rest.contains(last) {
                    let i = choose|i: int| 0 <= i < rest.len() && rest[i] == last;
                    assert(s[i] == s[s.len() - 1]);
                }
            }
            assert(rest.no_duplicates()) by {
                assert forall|a: int, b: int|
                    0 <= a < rest.len() && 0 <= b < rest.len() && a != b implies rest[a] != rest[b] by {
                    assert(rest[a] == s[a] && rest[b] == s[b]);
                }
            }
            lemma_push_no_duplicates(keep(rest, set, inside), last);
        }
    }
}

/// A sequence that lists each element of a set once, filtered by another
/// set, lists each element of the filtered set once.
proof fn lemma_keep_enumerates(s: Seq<u8>, all: Set<u8>, set: Set<u8>, inside: bool)
    requires
        enumerates(s, all),
    ensures
        enumerates(
            keep(s, set, inside),
            if inside {
                all.intersect(set)
            } else {
                all.difference(set)
            },
        ),
{
    lemma_keep(s, set, inside);
    let target = if inside {
        all.intersect(set)
    } else {
        all.difference(set)
    };
    assert forall|k: u8| keep(s, set, inside).to_set().contains(k) <==> target.contains(k) by {
        assert(s.to_set().contains(k) <==> s.contains(k));
        assert(keep(s, set, inside).to_set().contains(k) <==> keep(s, set, inside).contains(k));
    }
    assert(keep(s, set, inside).to_set() =~= target);
}

impl Keyboard {
    /// One frame of the keyboard front end, given the keys held now and the
    /// window's events since the last frame.
    ///
    /// Notes whose keys were let go are released and notes whose keys went
    /// down are pressed, on the current channel; the held notes become those
    /// of the keys held now. Then the events are read up to the first request
    /// to quit: Up and Down move the channel by one (wrapping around). Unless
    /// asked to quit, if the channel changed, each held note is released on
    /// the old channel and pressed on the new one, and the keyboard moves to
    /// the new channel.
    pub fn frame(&mut self, pressed: &Vec<KeyboardKey>, events: &Vec<UiEvent>) -> (f: Frame)
        requires
            old(self).well_formed(),
        ensures
            final(self).well_formed(),
            final(self).held() == held_notes(pressed@),
            exists|q: Seq<u8>|
                enumerates(q, old(self).held().difference(held_notes(pressed@)))
                    && f.released@ == releases(q, old(self).spec_channel()),
            exists|q: Seq<u8>|
                enumerates(q, held_notes(pressed@).difference(old(self).held()))
                    && f.struck@ == presses(q, old(self).spec_channel()),
            f.quit == events@.contains(UiEvent::Quit),
            final(self).spec_channel() == if f.quit {
                old(self).spec_channel()
            } else {
                channel_after(old(self).spec_channel(), events@)
            },
            frame_step(
                old(self).held(),
                old(self).spec_channel(),
                final(self).held(),
                final(self).spec_channel(),
                f.released@ + f.struck@ + f.moved@,
            ),
            forall|i: int|
                0 <= i < f.released@.len() + f.struck@.len() + f.moved@.len() ==> keyboard_message(
                    #[trigger] (f.released@ + f.struck@ + f.moved@)[i],
                ),
            if !f.quit && final(self).spec_channel() != old(self).spec_channel() {
                exists|q: Seq<u8>|
                    enumerates(q, held_notes(pressed@)) && f.moved@ == moves(
                        q,
                        old(self).spec_channel(),
                        final(self).spec_channel(),
                    )
            } else {
                f.moved@.len() == 0
            },
    {
        let channel = self.channel;
        let ghost old_keys = self.keys@;
        // The notes held now.
        let mut next_keys: HashSet<u8> = HashSet::new();
        let mut i: usize = 0;
        while i < pressed.len()
            invariant
                i <= pressed@.len(),
                next_keys@ == Set::new(
                    |n: u8| exists|j: int| 0 <= j < i && (#[trigger] pressed@[j]).spec_note() == n,
                ),
            decreases pressed@.len() - i,
        {
            let n = pressed[i].note();
            next_keys.insert(n);
            i = i + 1;
            assert(next_keys@ =~= Set::new(
                |m: u8| exists|j: int| 0 <= j < i && (#[trigger] pressed@[j]).spec_note() == m,
            )) by {
                assert forall|m: u8|
                    next_keys@.contains(m) implies exists|j: int|
                        0 <= j < i && (#[trigger] pressed@[j]).spec_note() == m by {
                    if m == n {
                        assert(pressed@[i - 1].spec_note() == m);
                    }
                }
            }
        }
        assert(next_keys@ =~= held_notes(pressed@));
        let ghost now = next_keys@;
        // Releases of the notes let go.
        let mut released: Vec<Message> = Vec::new();
        let ghost old_entries = self.keys.iter().remaining();
        for k in it: self.keys.iter()
            invariant
                it.seq() == old_entries,
                released@ == releases(keep(it.seq().take(it.index()).unref(), now, false), channel),
                next_keys@ == now,
        {
            let ghost before = it.seq().take(it.index()).unref();
            if !next_keys.contains(k) {
                released.push(Message::KeyUp { channel, note: *k });
            }
            proof {
                let after = it.seq().take(it.index() + 1).unref();
                assert(after =~= before.push(*k));
                assert(after.drop_last() =~= before);
            }
        }
        assert(old_entries.take(old_entries.len() as int) =~= old_entries);
        proof {
            lemma_keep_enumerates(old_entries.unref(), old_keys, now, false);
        }
        // Presses of the notes newly held.
        let mut struck: Vec<Message> = Vec::new();
        let ghost new_entries = next_keys.iter().remaining();
        for k in it: next_keys.iter()
            invariant
                it.seq() == new_entries,
                struck@ == presses(keep(it.seq().take(it.index()).unref(), old_keys, false), channel),
                self.keys@ == old_keys,
        {
            let ghost before = it.seq().take(it.index()).unref();
            if !self.keys.contains(k) {
                struck.push(Message::KeyDown { channel, note: *k, velocity: KEYBOARD_VELOCITY });
            }
            proof {
                let after = it.seq().take(it.index() + 1).unref();
                assert(after =~= before.push(*k));
                assert(after.drop_last() =~= before);
            }
        }
        assert(new_entries.take(new_entries.len() as int) =~= new_entries);
        proof {
            lemma_keep_enumerates(new_entries.unref(), now, old_keys, false);
        }
        self.keys = next_keys;
        // The channel moves.
        let mut next: u8 = channel;
        let mut quit = false;
        let mut e: usize = 0;
        if events.len() == 0 {
            assert(events@.take(0) =~= events@);
        }
        while e < events.len()
            invariant_except_break
                e <= events@.len(),
                !events@.take(e as int).contains(UiEvent::Quit),
                next == channel_after(channel, events@.take(e as int)),
                next < NUM_CHANNELS,
                !quit,
                e == events@.len() ==> events@.take(e as int) == events@,
            ensures
                quit == events@.contains(UiEvent::Quit),
                !quit ==> next == channel_after(channel, events@),
                next < NUM_CHANNELS,
            decreases events@.len() - e,
        {
            let ghost prefix = events@.take(e + 1);
            assert(prefix.drop_last() =~= events@.take(e as int));
            assert(prefix.subrange(0, prefix.len() - 1) =~= events@.take(e as int));
            match events[e] {
                UiEvent::Quit => {
                    quit = true;
                    assert(events@[e as int] == UiEvent::Quit);
                    break;
                },
                UiEvent::ChannelUp => {
                    next = (next + 1) % 16;
                },
                UiEvent::ChannelDown => {
                    next = if next == 0 {
                        15
                    } else {
                        next - 1
                    };
                },
                UiEvent::Other => {},
            }
            e = e + 1;
            proof {
                lemma_push_contains(events@.take(e - 1), events@[e - 1]);
                assert(events@.take(e as int) =~= events@.take(e - 1).push(events@[e - 1]));
            }
            if e == events.len() {
                assert(events@.take(e as int) =~= events@);
            }
        }
        proof {
            if events@.len() == 0 {
                assert(events@.take(0) =~= events@);
            }
        }
        // Held notes follow the keyboard to its new channel.
        let mut moved: Vec<Message> = Vec::new();
        if !quit && next != channel {
            let ghost held_entries = self.keys.iter().remaining();
            for k in it: self.keys.iter()
                invariant
                    it.seq() == held_entries,
                    moved@ == moves(it.seq().take(it.index()).unref(), channel, next),
            {
                let ghost before = it.seq().take(it.index()).unref();
                moved.push(Message::KeyUp { channel, note: *k });
                moved.push(Message::KeyDown { channel: next, note: *k, velocity: KEYBOARD_VELOCITY });
                proof {
                    let after = it.seq().take(it.index() + 1).unref();
                    assert(after =~= before.push(*k));
                    assert(after.drop_last() =~= before);
                }
            }
            assert(held_entries.take(held_entries.len() as int) =~= held_entries);
            assert(enumerates(held_entries.unref(), self.keys@));
            assert(moved@ == moves(held_entries.unref(), channel, next));
            proof {
                let q1 = keep(old_entries.unref(), now, false);
                let q2 = keep(new_entries.unref(), old_keys, false);
                let q3 = held_entries.unref();
                assert(released@ + struck@ + moved@ =~= frame_messages(q1, q2, q3, channel, next));
                assert(frame_step(old_keys, channel, now, next, released@ + struck@ + moved@));
            }
        }
        if !quit {
            self.channel = next;
        }
        proof {
            if quit || next == channel {
                let q1 = keep(old_entries.unref(), now, false);
                let q2 = keep(new_entries.unref(), old_keys, false);
                assert(moved@.len() == 0);
                assert(released@ + struck@ + moved@ =~= frame_messages(
                    q1,
                    q2,
                    Seq::empty(),
                    channel,
                    channel,
                ));
                assert(frame_step(old_keys, channel, now, channel, released@ + struck@ + moved@));
            }
        }
        proof {
            assert forall|n: u8| #[trigger] now.contains(n) implies keyboard_note(n) by {
                let j = choose|j: int| 0 <= j < pressed@.len() && (#[trigger] pressed@[j]).spec_note() == n;
                lemma_key_notes(pressed@[j]);
            }
            assert forall|n: u8| #[trigger] old_keys.contains(n) implies keyboard_note(n) by {
                assert(old(self).held().contains(n));
            }
            lemma_frame_step_messages(old_keys, channel, now, self.channel, released@ + struck@ + moved@);
        }
        Frame { released, struck, moved, quit }
    }
}

/// Every message the keyboard sends on a channel it can be on is one the
/// synthesizer accepts.
pub proof fn lemma_keyboard_messages_valid(notes: Seq<u8>, from: u8, to: u8)
    requires
        from < NUM_CHANNELS,
        to < NUM_CHANNELS,
    ensures
        forall|i: int| 0 <= i < releases(notes, from).len() ==> (#[trigger] releases(notes, from)[i]).spec_is_valid(),
        forall|i: int| 0 <= i < presses(notes, from).len() ==> (#[trigger] presses(notes, from)[i]).spec_is_valid(),
        forall|i: int| 0 <= i < moves(notes, from, to).len() ==> (#[trigger] moves(notes, from, to)[i]).spec_is_valid(),
    decreases notes.len(),
{
    if notes.len() > 0 {
        lemma_keyboard_messages_valid(notes.drop_last(), from, to);
        let m = moves(notes.drop_last(), from, to);
        assert forall|i: int| 0 <= i < moves(notes, from, to).len() implies (#[trigger] moves(
            notes,
            from,
            to,
        )[i]).spec_is_valid() by {
            if i < m.len() {
                assert(moves(notes, from, to)[i] == m[i]);
            }
        }
    }
}

/// The channel moves stay among the sixteen channels.
pub proof fn lemma_channel_stays_in_range(channel: u8, events: Seq<UiEvent>)
    requires
        channel < NUM_CHANNELS,
    ensures
        channel_after(channel, events) < NUM_CHANNELS,
    decreases events.len(),
{
    if events.len() > 0 {
        lemma_channel_stays_in_range(channel, events.drop_last());
    }
}

/// Up then Down, or Down then Up, comes back to the same channel; sixteen
/// Ups go all the way round.
pub proof fn lemma_channel_moves_cancel(channel: u8)
    requires
        channel < NUM_CHANNELS,
    ensures
        channel_after(channel, seq![UiEvent::ChannelUp, UiEvent::ChannelDown]) == channel,
        channel_after(channel, seq![UiEvent::ChannelDown, UiEvent::ChannelUp]) == channel,
        channel_after(channel, Seq::new(16, |i: int| UiEvent::ChannelUp)) == channel,
{
    let ud = seq![UiEvent::ChannelUp, UiEvent::ChannelDown];
    let du = seq![UiEvent::ChannelDown, UiEvent::ChannelUp];
    assert(ud.drop_last() =~= seq![UiEvent::ChannelUp]);
    assert(du.drop_last() =~= seq![UiEvent::ChannelDown]);
    assert(seq![UiEvent::ChannelUp].drop_last() =~= Seq::<UiEvent>::empty());
    assert(seq![UiEvent::ChannelDown].drop_last() =~= Seq::<UiEvent>::empty());
    assert(!Seq::<UiEvent>::empty().contains(UiEvent::Quit));
    assert(ud.subrange(0, 1) =~= seq![UiEvent::ChannelUp]);
    assert(du.subrange(0, 1) =~= seq![UiEvent::ChannelDown]);
    assert(!seq![UiEvent::ChannelUp].contains(UiEvent::Quit));
    assert(!seq![UiEvent::ChannelDown].contains(UiEvent::Quit));
    assert(seq![UiEvent::ChannelUp].subrange(0, 0) =~= Seq::<UiEvent>::empty());
    assert(seq![UiEvent::ChannelDown].subrange(0, 0) =~= Seq::<UiEvent>::empty());
    assert(channel_after(channel, Seq::<UiEvent>::empty()) == channel);
    assert(channel_after(channel, seq![UiEvent::ChannelUp]) == (channel + 1) % 16);
    assert(channel_after(channel, seq![UiEvent::ChannelDown]) == if channel == 0 {
        15
    } else {
        channel - 1
    });
    assert(channel_after(channel, ud) == channel);
    assert(channel_after(channel, du) == channel);
    lemma_ups_advance(channel, 16);
}

/// `n` Ups in a row move the channel `n` places up, wrapping around.
proof fn lemma_ups_advance(channel: u8, n: nat)
    requires
        channel < NUM_CHANNELS,
    ensures
        channel_after(channel, Seq::new(n, |i: int| UiEvent::ChannelUp)) == (channel + n) % 16,
    decreases n,
{
    let ups = Seq::new(n, |i: int| UiEvent::ChannelUp);
    if n > 0 {
        let fewer = Seq::new((n - 1) as nat, |i: int| UiEvent::ChannelUp);
        assert(ups.drop_last() =~= fewer);
        assert(ups.subrange(0, n - 1) =~= fewer);
        lemma_ups_advance(channel, (n - 1) as nat);
        assert(!fewer.contains(UiEvent::Quit));
    } else {
        assert(ups.len() == 0);
    }
}

/// When the keys held do not change and nothing happens in the window, a
/// frame sends nothing: the only enumeration of an empty set is empty.
pub proof fn lemma_steady_frame_is_silent(q: Seq<u8>, held: Set<u8>)
    requires
        enumerates(q, held.difference(held)),
    ensures
        q.len() == 0,
{
    if q.len() > 0 {
        assert(q.to_set().contains(q[0]));
    }
}

/// The (channel, note) pairs of `notes` on `channel`.
pub open spec fn on_channel(channel: u8, notes: Set<u8>) -> Set<(u8, u8)> {
    Set::new(|p: (u8, u8)| p.0 == channel && notes.contains(p.1))
}

/// The notes held on the synthesizer after one more key message: a press
/// starts a note that was not held and a release ends one that was; `None`
/// when a note would be pressed twice or released twice in a row (or the
/// message is not a key message).
pub open spec fn apply_key(held: Set<(u8, u8)>, m: Message) -> Option<Set<(u8, u8)>> {
    match m {
        Message::KeyDown { channel, note, .. } => if held.contains((channel, note)) {
            None
        } else {
            Some(held.insert((channel, note)))
        },
        Message::KeyUp { channel, note } => if held.contains((channel, note)) {
            Some(held.remove((channel, note)))
        } else {
            None
        },
        _ => None,
    }
}

/// The notes held on the synthesizer after a sequence of key messages, or
/// `None` if some note is pressed twice or released twice in a row.
pub open spec fn apply_keys(held: Set<(u8, u8)>, msgs: Seq<Message>) -> Option<Set<(u8, u8)>>
    decreases msgs.len(),
{
    if msgs.len() == 0 {
        Some(held)
    } else {
        match apply_keys(held, msgs.drop_last()) {
            Some(h) => apply_key(h, msgs.last()),
            None => None,
        }
    }
}

/// The messages of a frame, given the enumerations it chose.
pub open spec fn frame_messages(q1: Seq<u8>, q2: Seq<u8>, q3: Seq<u8>, ch: u8, to: u8) -> Seq<Message> {
    if ch != to {
        releases(q1, ch) + presses(q2, ch) + moves(q3, ch, to)
    } else {
        releases(q1, ch) + presses(q2, ch)
    }
}

/// `msgs` are the messages of a frame that takes the keyboard from holding
/// `before` on channel `ch` to holding `after` on channel `to`: releases of
/// the notes let go and presses of the new ones on `ch`, then, if the
/// channel changed, each held note released on `ch` and pressed on `to`.
pub open spec fn frame_step(before: Set<u8>, ch: u8, after: Set<u8>, to: u8, msgs: Seq<Message>) -> bool {
    exists|q1: Seq<u8>, q2: Seq<u8>, q3: Seq<u8>|
        #![trigger frame_messages(q1, q2, q3, ch, to)]
        enumerates(q1, before.difference(after)) && enumerates(q2, after.difference(before)) && (ch
            != to ==> enumerates(q3, after)) && msgs == frame_messages(q1, q2, q3, ch, to)
}

proof fn lemma_apply_keys_append(held: Set<(u8, u8)>, a: Seq<Message>, b: Seq<Message>)
    ensures
        apply_keys(held, a + b) == match apply_keys(held, a) {
            Some(h) => apply_keys(h, b),
            None => None,
        },
    decreases b.len(),
{
    if b.len() == 0 {
        assert(a + b =~= a);
    } else {
        lemma_apply_keys_append(held, a, b.drop_last());
        assert((a + b).drop_last() =~= a + b.drop_last());
        assert((a + b).last() == b.last());
    }
}

proof fn lemma_seq_set_push(q: Seq<u8>)
    requires
        q.len() > 0,
    ensures
        q.to_set() == q.drop_last().to_set().insert(q.last()),
        q.no_duplicates() ==> q.drop_last().no_duplicates() && !q.drop_last().to_set().contains(q.last()),
{
    let r = q.drop_last();
    assert(q == r.push(q.last()));
    lemma_push_contains(r, q.last());
    assert(q.to_set() =~= r.to_set().insert(q.last()));
    if q.no_duplicates() {
        assert forall|a: int, b: int| 0 <= a < r.len() && 0 <= b < r.len() && a != b implies r[a] != r[b] by {
            assert(r[a] == q[a] && r[b] == q[b]);
        }
        if r.contains(q.last()) {
            let i = choose|i: int| 0 <= i < r.len() && r[i] == q.last();
            assert(q[i] == q[q.len() - 1]);
        }
    }
}

proof fn lemma_apply_releases(held: Set<(u8, u8)>, q: Seq<u8>, ch: u8)
    requires
        q.no_duplicates(),
        on_channel(ch, q.to_set()).subset_of(held),
    ensures
        apply_keys(held, releases(q, ch)) == Some(held.difference(on_channel(ch, q.to_set()))),
    decreases q.len(),
{
    if q.len() == 0 {
        assert(held.difference(on_channel(ch, q.to_set())) =~= held);
    } else {
        let r = q.drop_last();
        lemma_seq_set_push(q);
        assert(on_channel(ch, r.to_set()).subset_of(held));
        lemma_apply_releases(held, r, ch);
        assert(releases(q, ch).drop_last() =~= releases(r, ch));
        let h = held.difference(on_channel(ch, r.to_set()));
        assert(on_channel(ch, q.to_set()).contains((ch, q.last())));
        assert(h.contains((ch, q.last())));
        assert(h.remove((ch, q.last())) =~= held.difference(on_channel(ch, q.to_set())));
    }
}

proof fn lemma_apply_presses(held: Set<(u8, u8)>, q: Seq<u8>, ch: u8)
    requires
        q.no_duplicates(),
        on_channel(ch, q.to_set()).disjoint(held),
    ensures
        apply_keys(held, presses(q, ch)) == Some(held.union(on_channel(ch, q.to_set()))),
    decreases q.len(),
{
    if q.len() == 0 {
        assert(held.union(on_channel(ch, q.to_set())) =~= held);
    } else {
        let r = q.drop_last();
        lemma_seq_set_push(q);
        assert(on_channel(ch, r.to_set()).disjoint(held)) by {
            assert forall|p: (u8, u8)| on_channel(ch, r.to_set()).contains(p) implies !held.contains(p) by {
                assert(on_channel(ch, q.to_set()).contains(p));
            }
        }
        lemma_apply_presses(held, r, ch);
        assert(presses(q, ch).drop_last() =~= presses(r, ch));
        let h = held.union(on_channel(ch, r.to_set()));
        assert(on_channel(ch, q.to_set()).contains((ch, q.last())));
        assert(!h.contains((ch, q.last())));
        assert(h.insert((ch, q.last())) =~= held.union(on_channel(ch, q.to_set())));
    }
}

proof fn lemma_apply_moves(held: Set<(u8, u8)>, q: Seq<u8>, from: u8, to: u8)
    requires
        q.no_duplicates(),
        from != to,
        on_channel(from, q.to_set()).subset_of(held),
        on_channel(to, q.to_set()).disjoint(held),
    ensures
        apply_keys(held, moves(q, from, to)) == Some(
            held.difference(on_channel(from, q.to_set())).union(on_channel(to, q.to_set())),
        ),
    decreases q.len(),
{
    if q.len() == 0 {
        assert(held.difference(on_channel(from, q.to_set())).union(on_channel(to, q.to_set())) =~= held);
    } else {
        let r = q.drop_last();
        let n = q.last();
        lemma_seq_set_push(q);
        assert(on_channel(from, r.to_set()).subset_of(held));
        assert(on_channel(to, r.to_set()).disjoint(held)) by {
            assert forall|p: (u8, u8)| on_channel(to, r.to_set()).contains(p) implies !held.contains(p) by {
                assert(on_channel(to, q.to_set()).contains(p));
            }
        }
        lemma_apply_moves(held, r, from, to);
        let pair = seq![Message::KeyUp { channel: from, note: n }, Message::KeyDown {
            channel: to,
            note: n,
            velocity: KEYBOARD_VELOCITY,
        }];
        assert(moves(q, from, to) =~= moves(r, from, to) + pair);
        lemma_apply_keys_append(held, moves(r, from, to), pair);
        let h = held.difference(on_channel(from, r.to_set())).union(on_channel(to, r.to_set()));
        assert(on_channel(from, q.to_set()).contains((from, n)));
        assert(on_channel(to, q.to_set()).contains((to, n)));
        assert(h.contains((from, n)));
        assert(!h.remove((from, n)).contains((to, n)));
        assert(pair.drop_last() =~= seq![Message::KeyUp { channel: from, note: n }]);
        assert(seq![Message::KeyUp { channel: from, note: n }].drop_last() =~= Seq::<Message>::empty());
        assert(apply_keys(h, Seq::<Message>::empty()) == Some(h));
        assert(apply_keys(h, seq![Message::KeyUp { channel: from, note: n }]) == Some(
            h.remove((from, n)),
        ));
        assert(pair.last() == Message::KeyDown { channel: to, note: n, velocity: KEYBOARD_VELOCITY });
        assert(apply_keys(h, pair) == Some(h.remove((from, n)).insert((to, n))));
        assert(h.remove((from, n)).insert((to, n)) =~= held.difference(on_channel(from, q.to_set())).union(
            on_channel(to, q.to_set()),
        ));
    }
}

/// One frame keeps the keyboard and the synthesizer in step: if the notes
/// held on the synthesizer are the keyboard's held notes on its channel,
/// then after the frame's messages they are the newly held notes on the
/// new channel, and no note is pressed twice or released twice in a row.
pub proof fn lemma_frame_keeps_step(before: Set<u8>, ch: u8, after: Set<u8>, to: u8, msgs: Seq<Message>)
    requires
        frame_step(before, ch, after, to, msgs),
    ensures
        apply_keys(on_channel(ch, before), msgs) == Some(on_channel(to, after)),
{
    let (q1, q2, q3) = choose|q1: Seq<u8>, q2: Seq<u8>, q3: Seq<u8>|
        #![trigger frame_messages(q1, q2, q3, ch, to)]
        enumerates(q1, before.difference(after)) && enumerates(q2, after.difference(before)) && (ch
            != to ==> enumerates(q3, after)) && msgs == frame_messages(q1, q2, q3, ch, to);
    let h0 = on_channel(ch, before);
    lemma_apply_releases(h0, q1, ch);
    let h1 = h0.difference(on_channel(ch, q1.to_set()));
    assert(h1 =~= on_channel(ch, before.intersect(after)));
    lemma_apply_presses(h1, q2, ch);
    let h2 = h1.union(on_channel(ch, q2.to_set()));
    assert(h2 =~= on_channel(ch, after));
    lemma_apply_keys_append(h0, releases(q1, ch), presses(q2, ch));
    if ch != to {
        lemma_apply_moves(h2, q3, ch, to);
        lemma_apply_keys_append(h0, releases(q1, ch) + presses(q2, ch), moves(q3, ch, to));
        assert(h2.difference(on_channel(ch, q3.to_set())).union(on_channel(to, q3.to_set())) =~= on_channel(
            to,
            after,
        ));
    }
}

/// Over any number of frames, starting from a keyboard and synthesizer in
/// step (a new keyboard holds nothing, and the synthesizer holds nothing from
/// it), the notes held on the synthesizer after all the frames' messages are
/// the keys held in the last frame on the channel then in force, and the
/// messages for any one note alternate between press and release.
pub proof fn lemma_frames_keep_step(held: Seq<Set<u8>>, channels: Seq<u8>, msgs: Seq<Seq<Message>>)
    requires
        held.len() == msgs.len() + 1,
        channels.len() == msgs.len() + 1,
        forall|i: int|
            0 <= i < msgs.len() ==> frame_step(
                #[trigger] held[i],
                channels[i],
                held[i + 1],
                channels[i + 1],
                msgs[i],
            ),
    ensures
        apply_keys(on_channel(channels[0], held[0]), msgs.flatten()) == Some(
            on_channel(channels.last(), held.last()),
        ),
    decreases msgs.len(),
{
    if msgs.len() > 0 {
        assert(frame_step(held[0], channels[0], held[1], channels[1], msgs[0]));
        lemma_frame_keeps_step(held[0], channels[0], held[1], channels[1], msgs[0]);
        let rest_held = held.drop_first();
        let rest_channels = channels.drop_first();
        let rest_msgs = msgs.drop_first();
        assert forall|i: int| 0 <= i < rest_msgs.len() implies frame_step(
            #[trigger] rest_held[i],
            rest_channels[i],
            rest_held[i + 1],
            rest_channels[i + 1],
            rest_msgs[i],
        ) by {
            assert(frame_step(held[i + 1], channels[i + 1], held[i + 2], channels[i + 2], msgs[i + 1]));
        }
        lemma_frames_keep_step(rest_held, rest_channels, rest_msgs);
        lemma_apply_keys_append(on_channel(channels[0], held[0]), msgs.first(), rest_msgs.flatten());
        assert(rest_held.last() == held.last());
        assert(rest_channels.last() == channels.last());
    }
}

proof fn lemma_key_notes(k: KeyboardKey)
    ensures
        keyboard_note(k.spec_note()),
{
}

/// The messages listing the elements of a set of keyboard notes are all
/// keyboard messages.
proof fn lemma_listed_messages(q: Seq<u8>, set: Set<u8>, from: u8, to: u8)
    requires
        enumerates(q, set),
        forall|n: u8| #[trigger] set.contains(n) ==> keyboard_note(n),
    ensures
        forall|i: int| 0 <= i < releases(q, from).len() ==> keyboard_message(#[trigger] releases(q, from)[i]),
        forall|i: int| 0 <= i < presses(q, from).len() ==> keyboard_message(#[trigger] presses(q, from)[i]),
        forall|i: int| 0 <= i < moves(q, from, to).len() ==> keyboard_message(#[trigger] moves(q, from, to)[i]),
    decreases q.len(),
{
    assert forall|i: int| 0 <= i < q.len() implies keyboard_note(#[trigger] q[i]) by {
        assert(q.to_set().contains(q[i]));
    }
    lemma_listed_moves(q, from, to);
}

proof fn lemma_listed_moves(q: Seq<u8>, from: u8, to: u8)
    requires
        forall|i: int| 0 <= i < q.len() ==> keyboard_note(#[trigger] q[i]),
    ensures
        forall|i: int| 0 <= i < moves(q, from, to).len() ==> keyboard_message(#[trigger] moves(q, from, to)[i]),
    decreases q.len(),
{
    if q.len() > 0 {
        let r = q.drop_last();
        assert forall|i: int| 0 <= i < r.len() implies keyboard_note(#[trigger] r[i]) by {
            assert(r[i] == q[i]);
        }
        lemma_listed_moves(r, from, to);
        let m = moves(r, from, to);
        assert(keyboard_note(q[q.len() - 1]));
        assert forall|i: int| 0 <= i < moves(q, from, to).len() implies keyboard_message(
            #[trigger] moves(q, from, to)[i],
        ) by {
            if i < m.len() {
                assert(moves(q, from, to)[i] == m[i]);
            }
        }
    }
}

/// Every message of a frame between sets of keyboard notes is a keyboard
/// message: a release or a press of one of the keys' notes, presses at the
/// keyboard velocity.
pub proof fn lemma_frame_step_messages(before: Set<u8>, ch: u8, after: Set<u8>, to: u8, msgs: Seq<Message>)
    requires
        frame_step(before, ch, after, to, msgs),
        forall|n: u8| #[trigger] before.contains(n) ==> keyboard_note(n),
        forall|n: u8| #[trigger] after.contains(n) ==> keyboard_note(n),
    ensures
        forall|i: int| 0 <= i < msgs.len() ==> keyboard_message(#[trigger] msgs[i]),
{
    let (q1, q2, q3) = choose|q1: Seq<u8>, q2: Seq<u8>, q3: Seq<u8>|
        #![trigger frame_messages(q1, q2, q3, ch, to)]
        enumerates(q1, before.difference(after)) && enumerates(q2, after.difference(before)) && (ch
            != to ==> enumerates(q3, after)) && msgs == frame_messages(q1, q2, q3, ch, to);
    lemma_listed_messages(q1, before.difference(after), ch, to);
    lemma_listed_messages(q2, after.difference(before), ch, to);
    if ch != to {
        lemma_listed_messages(q3, after, ch, to);
    }
    let a = releases(q1, ch);
    let b = presses(q2, ch);
    assert forall|i: int| 0 <= i < msgs.len() implies keyboard_message(#[trigger] msgs[i]) by {
        if i < a.len() {
            assert(msgs[i] == a[i]);
        } else if i < a.len() + b.len() {
            assert(msgs[i] == b[i - a.len()]);
        } else {
            assert(msgs[i] == moves(q3, ch, to)[i - a.len() - b.len()]);
        }
    }
}

/// The keys in the order of the notes they play, white and black keys
/// interleaved as on a piano.
pub open spec fn key_layout() -> Seq<KeyboardKey> {
    seq![
        KeyboardKey::A, KeyboardKey::W, KeyboardKey::S, KeyboardKey::D, KeyboardKey::R,
        KeyboardKey::F, KeyboardKey::T, KeyboardKey::G, KeyboardKey::H, KeyboardKey::U,
        KeyboardKey::J, KeyboardKey::I, KeyboardKey::K, KeyboardKey::O, KeyboardKey::L,
        KeyboardKey::Semicolon, KeyboardKey::LeftBracket, KeyboardKey::Apostrophe,
        KeyboardKey::RightBracket, KeyboardKey::Backslash,
    ]
}

/// The twenty keys, A W S D R F T G H U J I K O L ; [ ' ] \, play the
/// consecutive notes 57 to 76 in that order, and every key is one of them.
pub proof fn lemma_key_layout()
    ensures
        key_layout().len() == 20,
        forall|i: int| 0 <= i < 20 ==> (#[trigger] key_layout()[i]).spec_note() == 57 + i,
        forall|k: KeyboardKey| #[trigger] key_layout().contains(k),
{
    reveal_with_fuel(Seq::contains, 1);
    assert forall|k: KeyboardKey| #[trigger] key_layout().contains(k) by {
        let i: int = (k.spec_note() - 57) as int;
        assert(key_layout()[i] == k);
    }
}

} // verus!
