use vstd::prelude::*;
use crate::message::Message;

verus! {

/// A channel event of a standard MIDI file.
#[derive(Debug, Clone, Copy, PartialEq, Eq, Structural)]
pub enum MidiEvent {
    NoteOff { ch: u8, note: u8, velocity: u8 },
    NoteOn { ch: u8, note: u8, velocity: u8 },
    PolyphonicKeyPressure { ch: u8, note: u8, velocity: u8 },
    ControlChange { ch: u8, control: u8, data: u8 },
    ProgramChange { ch: u8, program: u8 },
    ChannelPressure { ch: u8, pressure: u8 },
    PitchBendChange { ch: u8, data: i16 },
    Unknown { ch: u8 },
}

/// The kind of a meta event of a standard MIDI file.
#[derive(Debug, Clone, Copy, PartialEq, Eq, Structural)]
pub enum MetaEvent {
    SequenceNumber,
    TextEvent,
    CopyrightNotice,
    SequenceOrTrackName,
    InstrumentName,
    Lyric,
    Marker,
    CuePoint,
    MIDIChannelPrefix,
    EndOfTrack,
    SetTempo,
    SMTPEOffset,
    TimeSignature,
    KeySignature,
    SequencerSpecificMetaEvent,
    Unknown { event_type: u8 },
}

/// The MIDI controller number of the channel volume.
pub const CHANNEL_VOLUME_CONTROLLER: u8 = 7;

/// Picoseconds in a microsecond.
pub const PICOS_PER_MICRO: u64 = 1_000_000;

/// The tempo a MIDI file has until it sets one: 120 beats per minute.
pub const DEFAULT_MICROS_PER_QUARTER_NOTE: u32 = 500_000;

/// Collects the channel events of a MIDI file, as the file's reader reports
/// them, each with the time (picoseconds from the start of its track) at
/// which it happens.
///
/// `elapsed` is the time since the start of the current track in
/// picoseconds, scaled by the file's ticks per quarter note: the sum, over
/// the events so far, of their delta times (ticks) times the tempo then in
/// force (microseconds per quarter note) times a million.
pub struct MidiHandler {
    pub micros_per_quarter_note: u32,
    pub ticks_per_quarter_note: u16,
    pub events: Vec<(u64, MidiEvent)>,
    pub elapsed: u128,
}

/// The number that big-endian bytes spell, kept to its low 32 bits.
pub open spec fn big_endian_value(bytes: Seq<u8>) -> int
    decreases bytes.len(),
{
    if bytes.len() == 0 {
        0
    } else {
        (big_endian_value(bytes.drop_last()) * 256 + bytes.last()) % 0x1_0000_0000
    }
}

/// `a + b`, or the largest `u128` where the sum does not fit.
pub open spec fn saturating_sum(a: int, b: int) -> int {
    if a + b > u128::MAX {
        u128::MAX as int
    } else {
        a + b
    }
}

/// The picoseconds that a scaled elapsed time stands for, rounded down
/// (the largest `u64` where they do not fit).
pub open spec fn scaled_to_time(elapsed: int, ticks_per_quarter_note: int) -> int {
    let t = elapsed / ticks_per_quarter_note;
    if t > u64::MAX {
        u64::MAX as int
    } else {
        t
    }
}

impl MidiHandler {
    /// A handler at the start of a file: default tempo, no time base yet,
    /// no events.
    pub fn new() -> (h: MidiHandler)
        ensures
            h.micros_per_quarter_note == DEFAULT_MICROS_PER_QUARTER_NOTE,
            h.ticks_per_quarter_note == 0,
            h.events@ == Seq::<(u64, MidiEvent)>::empty(),
            h.elapsed == 0,
    {
        MidiHandler {
            micros_per_quarter_note: DEFAULT_MICROS_PER_QUARTER_NOTE,
            ticks_per_quarter_note: 0,
            events: Vec::new(),
            elapsed: 0,
        }
    }

    /// The file's header: its time base is the number of ticks per quarter
    /// note.
    pub fn header(&mut self, format: u16, track: u16, time_base: u16)
        ensures
            final(self).ticks_per_quarter_note == time_base,
            final(self).micros_per_quarter_note == old(self).micros_per_quarter_note,
            final(self).events@ == old(self).events@,
            final(self).elapsed == old(self).elapsed,
    {
        self.ticks_per_quarter_note = time_base;
    }

    /// A meta event. A tempo change sets the tempo to the number its data
    /// spells in big-endian order; other meta events change nothing. Meta
    /// events do not move the clock.
    pub fn meta_event(&mut self, delta_time: u32, event: &MetaEvent, data: &Vec<u8>)
        ensures
            final(self).micros_per_quarter_note == if *event == MetaEvent::SetTempo {
                big_endian_value(data@)
            } else {
                old(self).micros_per_quarter_note as int
            },
            final(self).ticks_per_quarter_note == old(self).ticks_per_quarter_note,
            final(self).events@ == old(self).events@,
            final(self).elapsed == old(self).elapsed,
    {
        if let MetaEvent::SetTempo = event {
            self.micros_per_quarter_note = tempo_from_bytes(data);
        }
    }

    /// A channel event `delta_time` ticks after the previous event of the
    /// track: the clock moves on by that many ticks at the current tempo
    /// and the event is recorded at the new time.
    pub fn midi_event(&mut self, delta_time: u32, event: MidiEvent)
        requires
            old(self).ticks_per_quarter_note > 0,
        ensures
            final(self).elapsed == saturating_sum(
                old(self).elapsed as int,
                delta_time as int * old(self).micros_per_quarter_note as int * PICOS_PER_MICRO,
            ),
            final(self).events@ == old(self).events@.push(
                (
                    scaled_to_time(
                        final(self).elapsed as int,
                        old(self).ticks_per_quarter_note as int,
                    ) as u64,
                    event,
                ),
            ),
            final(self).micros_per_quarter_note == old(self).micros_per_quarter_note,
            final(self).ticks_per_quarter_note == old(self).ticks_per_quarter_note,
    {
        assert(delta_time as int * self.micros_per_quarter_note as int * PICOS_PER_MICRO
            <= u32::MAX as int * u32::MAX as int * PICOS_PER_MICRO) by (nonlinear_arith)
            requires
                delta_time <= u32::MAX,
                self.micros_per_quarter_note <= u32::MAX,
        ;
        let step: u128 = (delta_time as u128) * (self.micros_per_quarter_note as u128)
            * (PICOS_PER_MICRO as u128);
        self.elapsed = self.elapsed.saturating_add(step);
        let t: u128 = self.elapsed / (self.ticks_per_quarter_note as u128);
        let time: u64 = if t > u64::MAX as u128 {
            u64::MAX
        } else {
            t as u64
        };
        self.events.push((time, event));
    }

    /// A new track starts: its clock starts from zero.
    pub fn track_change(&mut self)
        ensures
            final(self).elapsed == 0,
            final(self).micros_per_quarter_note == old(self).micros_per_quarter_note,
            final(self).ticks_per_quarter_note == old(self).ticks_per_quarter_note,
            final(self).events@ == old(self).events@,
    {
        self.elapsed = 0;
    }
}

/// The tempo that a tempo event's data sets: its bytes in big-endian order,
/// kept to the low 32 bits.
pub fn tempo_from_bytes(data: &Vec<u8>) -> (v: u32)
    ensures
        v == big_endian_value(data@),
{
    let mut val: u32 = 0;
    let mut i: usize = 0;
    while i < data.len()
        invariant
            i <= data@.len(),
            val == big_endian_value(data@.take(i as int)),
        decreases data@.len() - i,
    {
        let b = data[i];
        assert((val << 8u32) | (b as u32) == ((val as int * 256 + b as int) % 0x1_0000_0000) as u32)
            by (bit_vector);
        val = (val << 8) | (b as u32);
        i = i + 1;
        assert(data@.take(i as int).drop_last() =~= data@.take(i - 1));
    }
    assert(data@.take(data@.len() as int) =~= data@);
    val
}

/// The entries of `s` at time `t`, in order.
pub open spec fn at_time<E>(s: Seq<(u64, E)>, t: u64) -> Seq<(u64, E)>
    decreases s.len(),
{
    if s.len() == 0 {
        Seq::empty()
    } else if s.last().0 == t {
        at_time(s.drop_last(), t).push(s.last())
    } else {
        at_time(s.drop_last(), t)
    }
}

/// The entries of `s` come in order of time.
pub open spec fn sorted_by_time<E>(s: Seq<(u64, E)>) -> bool {
    forall|i: int, j: int| 0 <= i <= j < s.len() ==> s[i].0 <= s[j].0
}

/// The message, if any, that a timed file event becomes: note-on with zero
/// velocity is a key release, the channel-volume controller is a volume
/// change, other controllers and events are dropped, and so is every event
/// off the solo channel when one is given.
pub open spec fn event_message(e: (u64, MidiEvent), solo: Option<u8>) -> Option<(u64, Message)> {
    let (t, ev) = e;
    let on_solo = |ch: u8| solo is None || solo == Some(ch);
    match ev {
        MidiEvent::NoteOff { ch, note, .. } => if on_solo(ch) {
            Some((t, Message::KeyUp { channel: ch, note }))
        } else {
            None
        },
        MidiEvent::NoteOn { ch, note, velocity } => if on_solo(ch) {
            if velocity == 0 {
                Some((t, Message::KeyUp { channel: ch, note }))
            } else {
                Some((t, Message::KeyDown { channel: ch, note, velocity }))
            }
        } else {
            None
        },
        MidiEvent::ProgramChange { ch, program } => if on_solo(ch) {
            Some((t, Message::ProgramChange { channel: ch, program }))
        } else {
            None
        },
        MidiEvent::ControlChange { ch, control, data } => if on_solo(ch) && control
            == CHANNEL_VOLUME_CONTROLLER {
            Some((t, Message::VolumeChange { channel: ch, volume: data }))
        } else {
            None
        },
        _ => None,
    }
}

/// The messages that a sequence of timed file events becomes, in order.
pub open spec fn event_messages(s: Seq<(u64, MidiEvent)>, solo: Option<u8>) -> Seq<(u64, Message)>
    decreases s.len(),
{
    if s.len() == 0 {
        Seq::empty()
    } else {
        match event_message(s.last(), solo) {
            Some(m) => event_messages(s.drop_last(), solo).push(m),
            None => event_messages(s.drop_last(), solo),
        }
    }
}

/// The message, if any, that one timed file event becomes.
fn message_for_event(e: (u64, MidiEvent), solo: Option<u8>) -> (r: Option<(u64, Message)>)
    ensures
        r == event_message(e, solo),
{
    let (t, ev) = e;
    let on_solo = |ch: u8| -> (b: bool)
        ensures
            b == (solo is None || solo == Some(ch)),
        {
            match solo {
                None => true,
                Some(s) => s == ch,
            }
        };
    match ev {
        MidiEvent::NoteOff { ch, note, .. } => if on_solo(ch) {
            Some((t, Message::KeyUp { channel: ch, note }))
        } else {
            None
        },
        MidiEvent::NoteOn { ch, note, velocity } => if on_solo(ch) {
            if velocity == 0 {
                Some((t, Message::KeyUp { channel: ch, note }))
            } else {
                Some((t, Message::KeyDown { channel: ch, note, velocity }))
            }
        } else {
            None
        },
        MidiEvent::ProgramChange { ch, program } => if on_solo(ch) {
            Some((t, Message::ProgramChange { channel: ch, program }))
        } else {
            None
        },
        MidiEvent::ControlChange { ch, control, data } => if on_solo(ch) && control
            == CHANNEL_VOLUME_CONTROLLER {
            Some((t, Message::VolumeChange { channel: ch, volume: data }))
        } else {
            None
        },
        _ => None,
    }
}

/// Entries at time `t` of a concatenation are those of each part.
proof fn lemma_at_time_add<E>(a: Seq<(u64, E)>, b: Seq<(u64, E)>, t: u64)
    ensures
        at_time(a + b, t) == at_time(a, t) + at_time(b, t),
    decreases b.len(),
{
    if b.len() == 0 {
        assert(a + b =~= a);
        assert(at_time(a, t) + at_time(b, t) =~= at_time(a, t));
    } else {
        lemma_at_time_add(a, b.drop_last(), t);
        assert((a + b).drop_last() =~= a + b.drop_last());
        assert((a + b).last() == b.last());
        if b.last().0 == t {
            assert(at_time(a, t) + at_time(b, t) =~= (at_time(a, t) + at_time(b.drop_last(), t)).push(
                b.last(),
            ));
        }
    }
}

/// A sequence with no entry at time `t` has no entries at `t`.
proof fn lemma_at_time_none<E>(s: Seq<(u64, E)>, t: u64)
    requires
        forall|i: int| 0 <= i < s.len() ==> (#[trigger] s[i]).0 != t,
    ensures
        at_time(s, t) == Seq::<(u64, E)>::empty(),
    decreases s.len(),
{
    if s.len() > 0 {
        lemma_at_time_none(s.drop_last(), t);
    }
}

/// Merges two sequences that are in order of time into one; at equal times
/// the entries of `a` come first.
fn merge_by_time(a: &Vec<(u64, MidiEvent)>, b: &Vec<(u64, MidiEvent)>) -> (out: Vec<(u64, MidiEvent)>)
    requires
        sorted_by_time(a@),
        sorted_by_time(b@),
    ensures
        sorted_by_time(out@),
        forall|t: u64| #[trigger] at_time(out@, t) == at_time(a@, t) + at_time(b@, t),
{
    let mut out: Vec<(u64, MidiEvent)> = Vec::new();
    let mut i: usize = 0;
    let mut j: usize = 0;
    while i < a.len() || j < b.len()
        invariant
            i <= a@.len(),
            j <= b@.len(),
            sorted_by_time(a@),
            sorted_by_time(b@),
            sorted_by_time(out@),
            out@.len() == i + j,
            forall|t: u64|
                #[trigger] at_time(out@, t) == at_time(a@.take(i as int), t) + at_time(
                    b@.take(j as int),
                    t,
                ),
            out@.len() > 0 && i < a@.len() ==> out@.last().0 <= a@[i as int].0,
            out@.len() > 0 && j < b@.len() ==> out@.last().0 <= b@[j as int].0,
            forall|k: int| 0 <= k < j && i < a@.len() ==> (#[trigger] b@[k]).0 < a@[i as int].0,
        decreases a@.len() + b@.len() - i - j,
    {
        let ghost before = out@;
        let take_a = if i == a.len() {
            false
        } else if j == b.len() {
            true
        } else {
            a[i].0 <= b[j].0
        };
        if take_a {
            let x = a[i];
            out.push(x);
            proof {
                assert(a@.take(i + 1) =~= a@.take(i as int).push(x));
                assert forall|t: u64|
                    #[trigger] at_time(out@, t) == at_time(a@.take(i + 1), t) + at_time(
                        b@.take(j as int),
                        t,
                    ) by {
                    assert(out@.drop_last() =~= before);
                    assert(out@.last() == x);
                    assert(a@.take(i + 1).drop_last() =~= a@.take(i as int));
                    assert(a@.take(i + 1).last() == x);
                    assert(at_time(before, t) == at_time(a@.take(i as int), t) + at_time(
                        b@.take(j as int),
                        t,
                    ));
                    if t == x.0 {
                        assert(at_time(out@, t) == at_time(before, t).push(x));
                        assert(at_time(a@.take(i + 1), t) == at_time(a@.take(i as int), t).push(x));
                        assert forall|k: int| 0 <= k < b@.take(j as int).len() implies (
                        #[trigger] b@.take(j as int)[k]).0 != t by {
                            assert(b@.take(j as int)[k] == b@[k]);
                        }
                        lemma_at_time_none(b@.take(j as int), t);
                        assert(at_time(a@.take(i as int), t) + at_time(b@.take(j as int), t) =~= at_time(
                            a@.take(i as int),
                            t,
                        ));
                        assert((at_time(a@.take(i as int), t)).push(x) + at_time(b@.take(j as int), t)
                            =~= at_time(a@.take(i as int), t).push(x));
                    }
                }
                assert forall|p: int, q: int| 0 <= p <= q < out@.len() implies out@[p].0 <= out@[q].0 by {
                    if q == out@.len() - 1 && p < q {
                        assert(out@[p] == before[p]);
                        assert(before[p].0 <= before.last().0);
                    } else if q < out@.len() - 1 {
                        assert(out@[p] == before[p] && out@[q] == before[q]);
                    }
                }
                assert forall|k: int| 0 <= k < j && i + 1 < a@.len() implies (#[trigger] b@[k]).0
                    < a@[i + 1].0 by {
                    assert(a@[i as int].0 <= a@[i + 1].0);
                }
                if i + 1 < a@.len() {
                    assert(a@[i as int].0 <= a@[i + 1].0);
                }
            }
            i = i + 1;
        } else {
            let y = b[j];
            out.push(y);
            proof {
                assert(b@.take(j + 1) =~= b@.take(j as int).push(y));
                assert forall|t: u64|
                    #[trigger] at_time(out@, t) == at_time(a@.take(i as int), t) + at_time(
                        b@.take(j + 1),
                        t,
                    ) by {
                    assert(out@.drop_last() =~= before);
                    assert(out@.last() == y);
                    assert(b@.take(j + 1).drop_last() =~= b@.take(j as int));
                    assert(b@.take(j + 1).last() == y);
                    assert(at_time(before, t) == at_time(a@.take(i as int), t) + at_time(
                        b@.take(j as int),
                        t,
                    ));
                    if t == y.0 {
                        assert(at_time(out@, t) == at_time(before, t).push(y));
                        assert(at_time(b@.take(j + 1), t) == at_time(b@.take(j as int), t).push(y));
                        assert((at_time(a@.take(i as int), t) + at_time(b@.take(j as int), t)).push(y)
                            =~= at_time(a@.take(i as int), t) + at_time(b@.take(j as int), t).push(y));
                    }
                }
                assert forall|p: int, q: int| 0 <= p <= q < out@.len() implies out@[p].0 <= out@[q].0 by {
                    if q == out@.len() - 1 && p < q {
                        assert(out@[p] == before[p]);
                        assert(before[p].0 <= before.last().0);
                    } else if q < out@.len() - 1 {
                        assert(out@[p] == before[p] && out@[q] == before[q]);
                    }
                }
                if j + 1 < b@.len() {
                    assert(b@[j as int].0 <= b@[j + 1].0);
                }
            }
            j = j + 1;
        }
    }
    assert(a@.take(a@.len() as int) =~= a@);
    assert(b@.take(b@.len() as int) =~= b@);
    out
}

/// The events sorted by time; events at the same time keep their order.
pub fn sort_by_time(events: &Vec<(u64, MidiEvent)>) -> (sorted: Vec<(u64, MidiEvent)>)
    ensures
        sorted_by_time(sorted@),
        forall|t: u64| #[trigger] at_time(sorted@, t) == at_time(events@, t),
    decreases events@.len(),
{
    let n = events.len();
    if n <= 1 {
        let mut copy: Vec<(u64, MidiEvent)> = Vec::new();
        if n == 1 {
            copy.push(events[0]);
            assert(copy@ =~= events@);
        } else {
            assert(copy@ =~= events@);
        }
        return copy;
    }
    let mid = n / 2;
    let mut left: Vec<(u64, MidiEvent)> = Vec::new();
    let mut right: Vec<(u64, MidiEvent)> = Vec::new();
    let mut k: usize = 0;
    while k < n
        invariant
            n == events@.len(),
            k <= n,
            mid < n,
            left@ == events@.take(if k < mid { k as int } else { mid as int }),
            right@ == if k < mid { Seq::empty() } else { events@.subrange(mid as int, k as int) },
        decreases n - k,
    {
        if k < mid {
            left.push(events[k]);
            assert(left@ =~= events@.take(k + 1));
        } else {
            right.push(events[k]);
            assert(right@ =~= events@.subrange(mid as int, k + 1));
        }
        k = k + 1;
        if k == mid {
            assert(right@ =~= events@.subrange(mid as int, k as int));
        }
    }
    assert(events@ =~= left@ + right@);
    let l = sort_by_time(&left);
    let r = sort_by_time(&right);
    let out = merge_by_time(&l, &r);
    proof {
        assert forall|t: u64| #[trigger] at_time(out@, t) == at_time(events@, t) by {
            lemma_at_time_add(left@, right@, t);
        }
    }
    out
}

proof fn lemma_messages_keeps_time(e: (u64, MidiEvent), solo: Option<u8>)
    ensures
        event_message(e, solo) matches Some(m) ==> m.0 == e.0,
{
}

/// Turning events into messages commutes with picking out one time.
proof fn lemma_messages_at_time(s: Seq<(u64, MidiEvent)>, solo: Option<u8>, t: u64)
    ensures
        at_time(event_messages(s, solo), t) == event_messages(at_time(s, t), solo),
    decreases s.len(),
{
    if s.len() > 0 {
        let x = s.last();
        lemma_messages_at_time(s.drop_last(), solo, t);
        lemma_messages_keeps_time(x, solo);
        if x.0 == t {
            let a = at_time(s.drop_last(), t).push(x);
            assert(a.drop_last() =~= at_time(s.drop_last(), t));
            assert(a.last() == x);
        }
        match event_message(x, solo) {
            Some(m) => {
                let b = event_messages(s.drop_last(), solo).push(m);
                assert(b.drop_last() =~= event_messages(s.drop_last(), solo));
                assert(b.last() == m);
            },
            None => {},
        }
    }
}

/// Turning a time-ordered sequence of events into messages gives messages in order of time,
/// none later than the last event.
proof fn lemma_messages_sorted(s: Seq<(u64, MidiEvent)>, solo: Option<u8>)
    requires
        sorted_by_time(s),
    ensures
        sorted_by_time(event_messages(s, solo)),
        forall|i: int|
            0 <= i < event_messages(s, solo).len() ==> (#[trigger] event_messages(s, solo)[i]).0
                <= s.last().0,
    decreases s.len(),
{
    if s.len() > 0 {
        let x = s.last();
        let rest = s.drop_last();
        assert(sorted_by_time(rest)) by {
            assert forall|i: int, j: int| 0 <= i <= j < rest.len() implies rest[i].0 <= rest[j].0 by {
                assert(rest[i] == s[i] && rest[j] == s[j]);
            }
        }
        lemma_messages_sorted(rest, solo);
        lemma_messages_keeps_time(x, solo);
        if rest.len() > 0 {
            assert(rest.last() == s[s.len() - 2]);
            assert(s[s.len() - 2].0 <= s[s.len() - 1].0);
        }
    }
}

/// The messages that a MIDI file's events stand for, in order of time:
/// events at the same time keep the order in which the file gave them. With
/// a solo channel, only that channel's events count.
pub fn get_messages(handler: &MidiHandler, solo: Option<u8>) -> (messages: Vec<(u64, Message)>)
    ensures
        sorted_by_time(messages@),
        forall|t: u64|
            #[trigger] at_time(messages@, t) == event_messages(at_time(handler.events@, t), solo),
{
    let sorted = sort_by_time(&handler.events);
    let mut messages: Vec<(u64, Message)> = Vec::new();
    let mut i: usize = 0;
    while i < sorted.len()
        invariant
            i <= sorted@.len(),
            messages@ == event_messages(sorted@.take(i as int), solo),
        decreases sorted@.len() - i,
    {
        let e = sorted[i];
        let ghost prefix = sorted@.take(i + 1);
        assert(prefix.drop_last() =~= sorted@.take(i as int));
        assert(prefix.last() == e);
        match message_for_event(e, solo) {
            Some(m) => messages.push(m),
            None => {},
        }
        i = i + 1;
    }
    proof {
        assert(sorted@.take(sorted@.len() as int) =~= sorted@);
        lemma_messages_sorted(sorted@, solo);
        assert forall|t: u64|
            #[trigger] at_time(messages@, t) == event_messages(at_time(handler.events@, t), solo) by {
            lemma_messages_at_time(sorted@, solo, t);
        }
    }
    messages
}

/// The number that big-endian bytes spell, without any truncation.
pub open spec fn big_endian_number(bytes: Seq<u8>) -> int
    decreases bytes.len(),
{
    if bytes.len() == 0 {
        0
    } else {
        big_endian_number(bytes.drop_last()) * 256 + bytes.last()
    }
}

/// A tempo of at most four bytes is read exactly (a standard tempo event
/// has three): nothing is cut off.
pub proof fn lemma_tempo_exact(bytes: Seq<u8>)
    requires
        bytes.len() <= 4,
    ensures
        big_endian_value(bytes) == big_endian_number(bytes),
        big_endian_number(bytes) < vstd::arithmetic::power::pow(256, bytes.len()),
    decreases bytes.len(),
{
    if bytes.len() > 0 {
        let rest = bytes.drop_last();
        lemma_tempo_exact(rest);
        vstd::arithmetic::power::lemma_pow_adds(256, rest.len(), 1);
        vstd::arithmetic::power::lemma_pow1(256);
        assert(bytes.len() == rest.len() + 1);
        assert(vstd::arithmetic::power::pow(256, bytes.len()) == vstd::arithmetic::power::pow(
            256,
            rest.len(),
        ) * 256);
        let p = vstd::arithmetic::power::pow(256, rest.len());
        assert(p <= 0x100_0000) by {
            vstd::arithmetic::power::lemma_pow_increases(256, rest.len(), 3);
            reveal_with_fuel(vstd::arithmetic::power::pow, 4);
        }
        let n = big_endian_number(rest);
        assert(n * 256 + bytes.last() < p * 256) by (nonlinear_arith)
            requires
                0 <= n < p,
                bytes.last() < 256,
        ;
        assert(0 <= n * 256 + bytes.last()) by (nonlinear_arith)
            requires
                0 <= n,
        ;
        assert(p * 256 <= 0x1_0000_0000) by (nonlinear_arith)
            requires
                p <= 0x100_0000,
        ;
    } else {
        vstd::arithmetic::power::lemma_pow0(256);
    }
}

/// Within a track the clock never runs backwards: each event is at the same
/// time as the one before or later.
pub proof fn lemma_track_time_never_decreases(elapsed: int, step: int, ticks_per_quarter_note: int)
    requires
        0 <= elapsed <= u128::MAX,
        0 <= step,
        ticks_per_quarter_note > 0,
    ensures
        scaled_to_time(elapsed, ticks_per_quarter_note) <= scaled_to_time(
            saturating_sum(elapsed, step),
            ticks_per_quarter_note,
        ),
{
    vstd::arithmetic::div_mod::lemma_div_is_ordered(
        elapsed,
        saturating_sum(elapsed, step),
        ticks_per_quarter_note,
    );
}

/// With a solo channel, every message is on that channel.
pub proof fn lemma_solo_keeps_only_its_channel(s: Seq<(u64, MidiEvent)>, solo: u8)
    ensures
        forall|i: int|
            0 <= i < event_messages(s, Some(solo)).len() ==> (#[trigger] event_messages(
                s,
                Some(solo),
            )[i]).1.spec_channel() == solo,
    decreases s.len(),
{
    if s.len() > 0 {
        let rest = event_messages(s.drop_last(), Some(solo));
        lemma_solo_keeps_only_its_channel(s.drop_last(), solo);
        match event_message(s.last(), Some(solo)) {
            Some(m) => {
                assert(m.1.spec_channel() == solo);
                assert forall|i: int| 0 <= i < rest.push(m).len() implies (#[trigger] rest.push(
                    m,
                )[i]).1.spec_channel() == solo by {
                    if i < rest.len() {
                        assert(rest.push(m)[i] == rest[i]);
                    }
                }
            },
            None => {},
        }
    }
}

/// Without a solo channel, a note-on, note-off, program change or volume
/// change is never dropped: each such event gives one message.
pub proof fn lemma_no_solo_keeps_notes(e: (u64, MidiEvent))
    requires
        match e.1 {
            MidiEvent::NoteOn { .. } | MidiEvent::NoteOff { .. } | MidiEvent::ProgramChange {
                ..
            } => true,
            MidiEvent::ControlChange { control, .. } => control == CHANNEL_VOLUME_CONTROLLER,
            _ => false,
        },
    ensures
        event_message(e, None) is Some,
{
}

/// A note-on with zero velocity stands for the same thing as a note-off.
pub proof fn lemma_silent_note_on_is_note_off(t: u64, ch: u8, note: u8, velocity: u8, solo: Option<u8>)
    ensures
        event_message((t, MidiEvent::NoteOn { ch, note, velocity: 0 }), solo) == event_message(
            (t, MidiEvent::NoteOff { ch, note, velocity }),
            solo,
        ),
{
}

/// The messages of `msgs` on channel `c`, in order.
pub open spec fn keep_channel(msgs: Seq<(u64, Message)>, c: u8) -> Seq<(u64, Message)>
    decreases msgs.len(),
{
    if msgs.len() == 0 {
        Seq::empty()
    } else if msgs.last().1.spec_channel() == c {
        keep_channel(msgs.drop_last(), c).push(msgs.last())
    } else {
        keep_channel(msgs.drop_last(), c)
    }
}

/// Keeping one channel is filtering by that channel.
pub proof fn lemma_keep_channel_is_filter(msgs: Seq<(u64, Message)>, c: u8)
    ensures
        keep_channel(msgs, c) == msgs.filter(|m: (u64, Message)| m.1.spec_channel() == c),
    decreases msgs.len(),
{
    reveal(Seq::filter);
    if msgs.len() > 0 {
        lemma_keep_channel_is_filter(msgs.drop_last(), c);
    }
}

/// With a solo channel, the messages are those without one that are on the
/// solo channel, in the same order.
pub proof fn lemma_solo_is_filtered(s: Seq<(u64, MidiEvent)>, c: u8)
    ensures
        event_messages(s, Some(c)) == keep_channel(event_messages(s, None), c),
        event_messages(s, Some(c)) == event_messages(s, None).filter(
            |m: (u64, Message)| m.1.spec_channel() == c,
        ),
    decreases s.len(),
{
    if s.len() > 0 {
        lemma_solo_is_filtered(s.drop_last(), c);
        let x = s.last();
        match event_message(x, None) {
            Some(m) => {
                let all = event_messages(s.drop_last(), None).push(m);
                assert(all.drop_last() =~= event_messages(s.drop_last(), None));
                assert(all.last() == m);
            },
            None => {},
        }
    }
    lemma_keep_channel_is_filter(event_messages(s, None), c);
}

/// Keeping one channel commutes with picking out one time.
proof fn lemma_keep_channel_at_time(msgs: Seq<(u64, Message)>, c: u8, t: u64)
    ensures
        at_time(keep_channel(msgs, c), t) == keep_channel(at_time(msgs, t), c),
    decreases msgs.len(),
{
    if msgs.len() > 0 {
        let x = msgs.last();
        lemma_keep_channel_at_time(msgs.drop_last(), c, t);
        if x.0 == t {
            let a = at_time(msgs.drop_last(), t).push(x);
            assert(a.drop_last() =~= at_time(msgs.drop_last(), t));
            assert(a.last() == x);
        }
        if x.1.spec_channel() == c {
            let b = keep_channel(msgs.drop_last(), c).push(x);
            assert(b.drop_last() =~= keep_channel(msgs.drop_last(), c));
            assert(b.last() == x);
        }
    }
}

/// Keeping one channel of messages in order of time keeps them in order,
/// none later than the last message.
proof fn lemma_keep_channel_sorted(msgs: Seq<(u64, Message)>, c: u8)
    requires
        sorted_by_time(msgs),
    ensures
        sorted_by_time(keep_channel(msgs, c)),
        forall|i: int|
            0 <= i < keep_channel(msgs, c).len() ==> (#[trigger] keep_channel(msgs, c)[i]).0
                <= msgs.last().0,
    decreases msgs.len(),
{
    if msgs.len() > 0 {
        let rest = msgs.drop_last();
        assert(sorted_by_time(rest)) by {
            assert forall|i: int, j: int| 0 <= i <= j < rest.len() implies rest[i].0 <= rest[j].0 by {
                assert(rest[i] == msgs[i] && rest[j] == msgs[j]);
            }
        }
        lemma_keep_channel_sorted(rest, c);
        if rest.len() > 0 {
            assert(rest.last() == msgs[msgs.len() - 2]);
            assert(msgs[msgs.len() - 2].0 <= msgs[msgs.len() - 1].0);
        }
    }
}

/// A sequence with an entry at time `t` has a non-empty part at `t`, whose
/// entries are entries of the sequence at time `t`.
proof fn lemma_at_time_members<E>(s: Seq<(u64, E)>, t: u64)
    ensures
        forall|i: int|
            0 <= i < at_time(s, t).len() ==> (#[trigger] at_time(s, t)[i]).0 == t && s.contains(
                at_time(s, t)[i],
            ),
        s.len() > 0 && s.last().0 == t ==> at_time(s, t).len() > 0 && at_time(s, t).last()
            == s.last(),
    decreases s.len(),
{
    if s.len() > 0 {
        let rest = s.drop_last();
        lemma_at_time_members(rest, t);
        assert forall|i: int| 0 <= i < at_time(s, t).len() implies (#[trigger] at_time(s, t)[i]).0
            == t && s.contains(at_time(s, t)[i]) by {
            if i < at_time(rest, t).len() {
                assert(at_time(s, t)[i] == at_time(rest, t)[i]);
                let j = choose|j: int| 0 <= j < rest.len() && rest[j] == at_time(rest, t)[i];
                assert(s[j] == rest[j]);
            } else {
                assert(s[s.len() - 1] == s.last());
            }
        }
    }
}

/// Two sequences in order of time with the same entries at every time, in
/// the same order, are the same: the contract of `get_messages` fixes its
/// result.
pub proof fn lemma_sorted_determined<E>(a: Seq<(u64, E)>, b: Seq<(u64, E)>)
    requires
        sorted_by_time(a),
        sorted_by_time(b),
        forall|t: u64| #[trigger] at_time(a, t) == at_time(b, t),
    ensures
        a == b,
    decreases a.len() + b.len(),
{
    if a.len() == 0 && b.len() == 0 {
        assert(a =~= b);
    } else if a.len() == 0 {
        lemma_at_time_members(b, b.last().0);
        assert(at_time(a, b.last().0) == at_time(b, b.last().0));
    } else if b.len() == 0 {
        lemma_at_time_members(a, a.last().0);
        assert(at_time(a, a.last().0) == at_time(b, a.last().0));
    } else {
        let ta = a.last().0;
        let tb = b.last().0;
        lemma_at_time_members(a, ta);
        lemma_at_time_members(b, ta);
        lemma_at_time_members(a, tb);
        lemma_at_time_members(b, tb);
        assert(at_time(a, ta) == at_time(b, ta));
        assert(at_time(a, tb) == at_time(b, tb));
        // The last entry of each is at the latest time of the other.
        let x = at_time(b, ta)[0];
        let i = choose|i: int| 0 <= i < b.len() && b[i] == x;
        assert(b[i].0 <= b[b.len() - 1].0);
        let y = at_time(a, tb)[0];
        let k = choose|k: int| 0 <= k < a.len() && a[k] == y;
        assert(a[k].0 <= a[a.len() - 1].0);
        assert(ta == tb);
        assert(a.last() == b.last());
        let ra = a.drop_last();
        let rb = b.drop_last();
        assert(sorted_by_time(ra)) by {
            assert forall|p: int, q: int| 0 <= p <= q < ra.len() implies ra[p].0 <= ra[q].0 by {
                assert(ra[p] == a[p] && ra[q] == a[q]);
            }
        }
        assert(sorted_by_time(rb)) by {
            assert forall|p: int, q: int| 0 <= p <= q < rb.len() implies rb[p].0 <= rb[q].0 by {
                assert(rb[p] == b[p] && rb[q] == b[q]);
            }
        }
        assert forall|t: u64| #[trigger] at_time(ra, t) == at_time(rb, t) by {
            assert(at_time(a, t) == at_time(b, t));
            if t == ta {
                assert(at_time(a, t).drop_last() == at_time(ra, t));
                assert(at_time(b, t).drop_last() == at_time(rb, t));
            }
        }
        lemma_sorted_determined(ra, rb);
        assert(a =~= ra.push(a.last()));
        assert(b =~= rb.push(b.last()));
    }
}

/// The solo law for `get_messages`: the messages of a file with a solo
/// channel are its messages without one, keeping only those on the solo
/// channel, in the same order.
pub proof fn lemma_get_messages_solo(
    events: Seq<(u64, MidiEvent)>,
    c: u8,
    all: Seq<(u64, Message)>,
    solo: Seq<(u64, Message)>,
)
    requires
        sorted_by_time(all),
        forall|t: u64| #[trigger] at_time(all, t) == event_messages(at_time(events, t), None),
        sorted_by_time(solo),
        forall|t: u64| #[trigger] at_time(solo, t) == event_messages(at_time(events, t), Some(c)),
    ensures
        solo == keep_channel(all, c),
        solo == all.filter(|m: (u64, Message)| m.1.spec_channel() == c),
{
    lemma_keep_channel_sorted(all, c);
    assert forall|t: u64| #[trigger] at_time(solo, t) == at_time(keep_channel(all, c), t) by {
        lemma_keep_channel_at_time(all, c, t);
        lemma_solo_is_filtered(at_time(events, t), c);
    }
    lemma_sorted_determined(solo, keep_channel(all, c));
    lemma_keep_channel_is_filter(all, c);
}

/// Of the controllers only channel volume (controller 7) becomes a message,
/// a volume change that carries the controller's value on the event's
/// channel; an event of any other controller becomes no message and adds
/// nothing to the messages of the events before it.
pub proof fn lemma_only_channel_volume_controller(
    s: Seq<(u64, MidiEvent)>,
    t: u64,
    ch: u8,
    control: u8,
    data: u8,
    solo: Option<u8>,
)
    ensures
        control != 7 ==> event_message((t, MidiEvent::ControlChange { ch, control, data }), solo)
            is None,
        control != 7 ==> event_messages(
            s.push((t, MidiEvent::ControlChange { ch, control, data })),
            solo,
        ) == event_messages(s, solo),
        control == 7 && (solo is None || solo == Some(ch)) ==> event_messages(
            s.push((t, MidiEvent::ControlChange { ch, control, data })),
            solo,
        ) == event_messages(s, solo).push((t, Message::VolumeChange { channel: ch, volume: data })),
{
    let x = (t, MidiEvent::ControlChange { ch, control, data });
    assert(s.push(x).drop_last() == s);
    assert(s.push(x).last() == x);
}

} // verus!
