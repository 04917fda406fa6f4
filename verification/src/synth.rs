use std::collections::HashMap;
use vstd::prelude::*;
use vstd::std_specs::iter::IteratorSpec;
use crate::instrument::{InstrumentKind, Note, program_instrument, instrument_for_program};
use crate::message::{Message, NUM_CHANNELS, PERCUSSION_CHANNEL};
use crate::seq_facts::{lemma_push_contains, lemma_push_no_duplicates};

verus! {

broadcast use vstd::std_specs::hash::group_hash_axioms;

/// The key under which the synthesizer keeps the note `note` of `channel`.
pub open spec fn spec_note_key(channel: u8, note: u8) -> u16 {
    (channel as int * 256 + note as int) as u16
}

/// The key under which the synthesizer keeps the note `note` of `channel`
/// (one key per channel and note).
#[verifier::when_used_as_spec(spec_note_key)]
pub fn note_key(channel: u8, note: u8) -> (k: u16)
    requires
        channel < NUM_CHANNELS,
    ensures
        k == spec_note_key(channel, note),
        k as int == channel as int * 256 + note as int,
{
    channel as u16 * 256 + note as u16
}

/// The synthesizer's state as mathematical values: the instrument and the
/// volume (0 to 127 is silent to full, more is louder) of each channel, the
/// notes sounding or fading, keyed by channel and note, and the queue of
/// timed messages still to play, the next one last.
pub struct SynthView {
    pub channels: Seq<InstrumentKind>,
    pub volumes: Seq<u8>,
    pub notes: Map<u16, Note>,
    pub todo: Option<Seq<(u64, Message)>>,
}

/// A polyphonic synthesizer: sixteen channels, each with an instrument and
/// a volume, and the notes being played on them.
pub struct Synth {
    channels: Vec<InstrumentKind>,
    channel_volumes: Vec<u8>,
    notes: HashMap<u16, Note>,
    todo: Option<Vec<(u64, Message)>>,
}

impl View for Synth {
    type V = SynthView;

    closed spec fn view(&self) -> SynthView {
        SynthView {
            channels: self.channels@,
            volumes: self.channel_volumes@,
            notes: self.notes@,
            todo: match self.todo {
                Some(v) => Some(v@),
                None => None,
            },
        }
    }
}

/// The instruments a synthesizer starts with: a piano on every channel but
/// the percussion channel, which has the drum kit.
pub open spec fn initial_channels() -> Seq<InstrumentKind> {
    Seq::new(
        NUM_CHANNELS as nat,
        |c: int|
            if c == PERCUSSION_CHANNEL {
                InstrumentKind::DrumKit
            } else {
                InstrumentKind::Piano
            },
    )
}

/// The volume every channel starts with (full: 127 of 127).
pub open spec fn initial_volumes() -> Seq<u8> {
    Seq::new(NUM_CHANNELS as nat, |c: int| 127u8)
}

/// The queued messages that are due by `time`: those at the end of the
/// queue whose time is not after `time`, in the order they come off it.
pub open spec fn due_messages(queue: Seq<(u64, Message)>, time: u64) -> Seq<(u64, Message)>
    decreases queue.len(),
{
    if queue.len() > 0 && queue.last().0 <= time {
        seq![queue.last()] + due_messages(queue.drop_last(), time)
    } else {
        Seq::empty()
    }
}

impl SynthView {
    /// Sixteen channels and sixteen volumes; every note is kept under the key
    /// of an existing channel and of its own note number.
    pub open spec fn well_formed(self) -> bool {
        &&& self.channels.len() == NUM_CHANNELS
        &&& self.volumes.len() == NUM_CHANNELS
        &&& forall|k: u16| #[trigger]
            self.notes.contains_key(k) ==> k < NUM_CHANNELS as int * 256 && self.notes[k].value
                == k % 256
    }

    /// The messages that `update` at `time` takes off the queue.
    pub open spec fn due(self, time: u64) -> Seq<(u64, Message)> {
        match self.todo {
            Some(q) => due_messages(q, time),
            None => Seq::empty(),
        }
    }

    /// The state once the messages due by `time` are off the queue.
    pub open spec fn without_due(self, time: u64) -> SynthView {
        SynthView {
            todo: match self.todo {
                Some(q) => Some(q.take(q.len() - due_messages(q, time).len())),
                None => None,
            },
            ..self
        }
    }

    /// The state after handling `msg` at `time`.
    ///
    /// A key press starts the note (replacing one playing under the same
    /// channel and note); a key release marks a playing note as let go at
    /// `time`; a program change gives the channel the program's instrument,
    /// except on the percussion channel, which always keeps its drum kit; a
    /// volume change sets the channel's volume.
    pub open spec fn handle(self, time: u64, msg: Message) -> SynthView {
        match msg {
            Message::KeyDown { channel, note, velocity } => SynthView {
                notes: self.notes.insert(
                    spec_note_key(channel, note),
                    Note { value: note, velocity, start: time, end: None },
                ),
                ..self
            },
            Message::KeyUp { channel, note } => {
                let k = spec_note_key(channel, note);
                if self.notes.contains_key(k) {
                    SynthView {
                        notes: self.notes.insert(k, Note { end: Some(time), ..self.notes[k] }),
                        ..self
                    }
                } else {
                    self
                }
            },
            Message::ProgramChange { channel, program } => if channel != PERCUSSION_CHANNEL {
                SynthView {
                    channels: self.channels.update(channel as int, program_instrument(program)),
                    ..self
                }
            } else {
                self
            },
            Message::VolumeChange { channel, volume } => SynthView {
                volumes: self.volumes.update(channel as int, volume),
                ..self
            },
        }
    }

    /// The state after handling each of the timed messages in order.
    pub open spec fn handle_all(self, msgs: Seq<(u64, Message)>) -> SynthView
        decreases msgs.len(),
    {
        if msgs.len() == 0 {
            self
        } else {
            self.handle_all(msgs.drop_last()).handle(msgs.last().0, msgs.last().1)
        }
    }
}

/// A note that is sounding, with what the audio front end needs to render
/// it: its channel and the channel's instrument and volume, its note number
/// and velocity, and its current level (millionths of full scale).
#[derive(Debug, Clone, Copy, PartialEq, Eq, Structural)]
pub struct Voice {
    pub channel: u8,
    pub instrument: InstrumentKind,
    pub volume: u8,
    pub note: u8,
    pub velocity: u8,
    pub amplitude: u32,
}

impl SynthView {
    /// The level at `time` of the note kept under `k`, from its channel's
    /// instrument; `None` once the note has finished.
    pub open spec fn sound(self, k: u16, time: u64) -> Option<int> {
        self.channels[k as int / 256].spec_amplitude(self.notes[k], time as int)
    }

    /// What the audio front end is given for the note kept under `k`.
    pub open spec fn voice(self, k: u16, time: u64) -> Voice {
        Voice {
            channel: (k / 256) as u8,
            instrument: self.channels[k as int / 256],
            volume: self.volumes[k as int / 256],
            note: self.notes[k].value,
            velocity: self.notes[k].velocity,
            amplitude: self.sound(k, time).unwrap() as u32,
        }
    }

    /// The state once the notes that have finished by `time` are dropped.
    pub open spec fn drop_finished(self, time: u64) -> SynthView {
        SynthView {
            notes: Map::new(
                |k: u16| self.notes.contains_key(k) && self.sound(k, time) is Some,
                |k: u16| self.notes[k],
            ),
            ..self
        }
    }
}

/// The keys of a sequence of map entries, in order.
pub open spec fn entry_keys(entries: Seq<(&u16, &Note)>) -> Seq<u16> {
    entries.map_values(|p: (&u16, &Note)| *p.0)
}

/// The keys among `keys` whose notes still sound at `time`, in order.
pub open spec fn sounding_keys(v: SynthView, time: u64, keys: Seq<u16>) -> Seq<u16>
    decreases keys.len(),
{
    if keys.len() == 0 {
        Seq::empty()
    } else {
        let rest = sounding_keys(v, time, keys.drop_last());
        if v.sound(keys.last(), time) is Some {
            rest.push(keys.last())
        } else {
            rest
        }
    }
}

/// The keys among `keys` whose notes have finished by `time`, in order.
pub open spec fn finished_keys(v: SynthView, time: u64, keys: Seq<u16>) -> Seq<u16>
    decreases keys.len(),
{
    if keys.len() == 0 {
        Seq::empty()
    } else {
        let rest = finished_keys(v, time, keys.drop_last());
        if v.sound(keys.last(), time) is None {
            rest.push(keys.last())
        } else {
            rest
        }
    }
}

/// Every message of the sequence can be handled.
pub open spec fn all_valid(msgs: Seq<(u64, Message)>) -> bool {
    forall|i: int| 0 <= i < msgs.len() ==> (#[trigger] msgs[i]).1.spec_is_valid()
}

impl Synth {
    pub open spec fn well_formed(&self) -> bool {
        self@.well_formed()
    }

    /// A synthesizer with the initial instruments and volumes, no notes, and
    /// `todo`, if given, as the timed messages to play (in the order given,
    /// which is meant to be by time).
    pub fn new(todo: Option<Vec<(u64, Message)>>) -> (s: Synth)
        ensures
            s.well_formed(),
            s@.channels == initial_channels(),
            s@.volumes == initial_volumes(),
            s@.notes == Map::<u16, Note>::empty(),
            s@.todo == match todo {
                Some(v) => Some(v@.reverse()),
                None => None,
            },
    {
        let queue = match todo {
            Some(mut list) => {
                let ghost orig = list@;
                let mut stack: Vec<(u64, Message)> = Vec::new();
                while list.len() > 0
                    invariant
                        orig == list@ + stack@.reverse(),
                    decreases list.len(),
                {
                    let ghost before = list@;
                    let item = list.pop().unwrap();
                    stack.push(item);
                    proof {
                        assert(before == list@.push(item));
                        assert(stack@.reverse() == seq![item] + stack@.drop_last().reverse());
                        assert(orig == list@ + stack@.reverse());
                    }
                }
                proof {
                    assert(stack@.reverse().reverse() == stack@);
                    assert(orig.reverse() =~= stack@);
                }
                Some(stack)
            },
            None => None,
        };
        let mut channels: Vec<InstrumentKind> = Vec::new();
        let mut volumes: Vec<u8> = Vec::new();
        let mut c: u8 = 0;
        while c < NUM_CHANNELS
            invariant
                c <= NUM_CHANNELS,
                channels@ == initial_channels().take(c as int),
                volumes@ == initial_volumes().take(c as int),
            decreases NUM_CHANNELS - c,
        {
            channels.push(
                if c == PERCUSSION_CHANNEL {
                    InstrumentKind::DrumKit
                } else {
                    InstrumentKind::Piano
                },
            );
            volumes.push(127);
            c = c + 1;
            assert(channels@ =~= initial_channels().take(c as int));
            assert(volumes@ =~= initial_volumes().take(c as int));
        }
        assert(channels@ =~= initial_channels());
        assert(volumes@ =~= initial_volumes());
        Synth { channels, channel_volumes: volumes, notes: HashMap::new(), todo: queue }
    }

    /// Handles one message at `time`.
    fn handle(&mut self, time: u64, msg: Message)
        requires
            old(self).well_formed(),
            msg.spec_is_valid(),
        ensures
            final(self).well_formed(),
            final(self)@ == old(self)@.handle(time, msg),
    {
        match msg {
            Message::KeyDown { channel, note, velocity } => {
                let k = note_key(channel, note);
                assert(k % 256 == note) by (nonlinear_arith)
                    requires
                        k == channel * 256 + note,
                        note < 256,
                ;
                self.notes.insert(k, Note { value: note, velocity, start: time, end: None });
            },
            Message::KeyUp { channel, note } => {
                let k = note_key(channel, note);
                let found = match self.notes.get(&k) {
                    Some(n) => Some(*n),
                    None => None,
                };
                if let Some(n) = found {
                    self.notes.insert(k, Note { end: Some(time), ..n });
                }
            },
            Message::ProgramChange { channel, program } => {
                if channel != PERCUSSION_CHANNEL {
                    let instrument = instrument_for_program(program);
                    self.channels.set(channel as usize, instrument);
                }
            },
            Message::VolumeChange { channel, volume } => {
                self.channel_volumes.set(channel as usize, volume);
            },
        }
        assert(self@.notes =~= old(self)@.handle(time, msg).notes);
    }
    /// Takes the messages due by `time` off the queue, in the order they
    /// come off it.
    fn take_due(&mut self, time: u64) -> (due: Vec<(u64, Message)>)
        requires
            old(self).well_formed(),
        ensures
            final(self).well_formed(),
            due@ == old(self)@.due(time),
            final(self)@ == old(self)@.without_due(time),
    {
        let mut due: Vec<(u64, Message)> = Vec::new();
        let queue = self.todo.take();
        match queue {
            None => {
                self.todo = None;
            },
            Some(mut q) => {
                let ghost orig = q@;
                loop
                    invariant_except_break
                        orig == q@ + due@.reverse(),
                        due_messages(orig, time) == due@ + due_messages(q@, time),
                    ensures
                        orig == q@ + due@.reverse(),
                        due_messages(orig, time) == due@,
                    decreases q.len(),
                {
                    if q.len() == 0 {
                        assert(due@ + due_messages(q@, time) =~= due@);
                        break;
                    }
                    let last = q[q.len() - 1];
                    if last.0 > time {
                        assert(due@ + due_messages(q@, time) =~= due@);
                        break;
                    }
                    let ghost before = q@;
                    q.pop();
                    proof {
                        assert(before == q@.push(last));
                        assert(before.drop_last() == q@);
                        assert(due_messages(before, time) == seq![last] + due_messages(q@, time));
                    }
                    due.push(last);
                    proof {
                        assert(due@.reverse() =~= seq![last] + due@.drop_last().reverse());
                        assert(orig =~= q@ + due@.reverse());
                        assert(due_messages(orig, time) =~= due@ + due_messages(q@, time));
                    }
                }
                assert(q@ =~= orig.take(orig.len() - due@.len()));
                self.todo = Some(q);
            },
        }
        due
    }

    /// Whether every message due by `time` can be handled, so that `update`
    /// may be called.
    pub fn due_are_valid(&self, time: u64) -> (b: bool)
        ensures
            b == all_valid(self@.due(time)),
    {
        match &self.todo {
            None => true,
            Some(q) => {
                let n = q.len();
                let mut i = n;
                while i > 0
                    invariant
                        i <= n,
                        n == q@.len(),
                        self@.todo == Some(q@),
                        forall|j: int| i <= j < n ==> q@[j].0 <= time && (#[trigger] q@[j]).1.spec_is_valid(),
                    decreases i,
                {
                    if q[i - 1].0 > time {
                        proof {
                            lemma_due_is_suffix(q@, time, i as int);
                            assert forall|k: int| 0 <= k < due_messages(q@, time).len() implies (
                            #[trigger] due_messages(q@, time)[k]).1.spec_is_valid() by {
                                assert(q@[q@.len() - 1 - k] == due_messages(q@, time)[k]);
                            }
                        }
                        return true;
                    }
                    if !q[i - 1].1.is_valid() {
                        proof {
                            lemma_due_covers(q@, time, (i - 1) as int);
                            let k = q@.len() - 1 - (i - 1);
                            assert(!due_messages(q@, time)[k].1.spec_is_valid());
                        }
                        return false;
                    }
                    i = i - 1;
                }
                proof {
                    lemma_due_is_suffix(q@, time, 0);
                    assert forall|k: int| 0 <= k < due_messages(q@, time).len() implies (
                    #[trigger] due_messages(q@, time)[k]).1.spec_is_valid() by {
                        assert(q@[q@.len() - 1 - k] == due_messages(q@, time)[k]);
                    }
                }
                true
            },
        }
    }

    /// Plays the queued messages due by `time`, each at its own time, then
    /// the messages received from the keyboard, at `time`. Returns the
    /// messages handled, with their times, in the order handled.
    pub fn update(&mut self, time: u64, received: Vec<Message>) -> (handled: Vec<(u64, Message)>)
        requires
            old(self).well_formed(),
            all_valid(old(self)@.due(time)),
            forall|i: int| 0 <= i < received@.len() ==> (#[trigger] received@[i]).spec_is_valid(),
        ensures
            final(self).well_formed(),
            handled@ == old(self)@.due(time) + received@.map_values(|m: Message| (time, m)),
            final(self)@ == old(self)@.without_due(time).handle_all(handled@),
    {
        let mut handled = self.take_due(time);
        let ghost due = handled@;
        let mut j: usize = 0;
        while j < received.len()
            invariant
                j <= received@.len(),
                handled@ == due + received@.take(j as int).map_values(|m: Message| (time, m)),
            decreases received@.len() - j,
        {
            handled.push((time, received[j]));
            j = j + 1;
            assert(received@.take(j as int).drop_last() == received@.take(j - 1));
            assert(handled@ =~= due + received@.take(j as int).map_values(|m: Message| (time, m)));
        }
        assert(received@.take(received@.len() as int) == received@);
        let ghost base = self@;
        let mut i: usize = 0;
        while i < handled.len()
            invariant
                i <= handled@.len(),
                self.well_formed(),
                self@ == base.handle_all(handled@.take(i as int)),
                base == old(self)@.without_due(time),
                handled@ == due + received@.map_values(|m: Message| (time, m)),
                all_valid(due),
                forall|k: int| 0 <= k < received@.len() ==> (#[trigger] received@[k]).spec_is_valid(),
            decreases handled@.len() - i,
        {
            let (t, m) = handled[i];
            proof {
                if i < due.len() {
                    assert(due[i as int] == handled@[i as int]);
                } else {
                    assert(handled@[i as int] == (time, received@[i - due.len()]));
                }
            }
            self.handle(t, m);
            i = i + 1;
            assert(handled@.take(i as int).drop_last() =~= handled@.take(i - 1));
        }
        assert(handled@.take(handled@.len() as int) =~= handled@);
        handled
    }
    /// The notes that sound at `time`, as voices for the audio front end;
    /// notes that have finished by `time` are dropped.
    pub fn sounding_voices(&mut self, time: u64) -> (voices: Vec<Voice>)
        requires
            old(self).well_formed(),
        ensures
            final(self).well_formed(),
            final(self)@ == old(self)@.drop_finished(time),
            voices@.no_duplicates(),
            forall|v: Voice|
                voices@.contains(v) <==> exists|k: u16|
                    #[trigger] final(self)@.notes.contains_key(k) && v == old(self)@.voice(k, time),
    {
        let ghost start = self@;
        let mut voices: Vec<Voice> = Vec::new();
        let mut finished: Vec<u16> = Vec::new();
        let ghost entries = self.notes.iter().remaining();
        for entry in it: self.notes.iter()
            invariant
                it.seq() == entries,
                self@ == start,
                self.well_formed(),
                voices@ == sounding_keys(start, time, entry_keys(it.seq().take(it.index()))).map_values(
                    |k: u16| start.voice(k, time),
                ),
                finished@ == finished_keys(start, time, entry_keys(it.seq().take(it.index()))),
        {
            let (k, n) = entry;
            let key: u16 = *k;
            proof {
                assert(start.notes.contains_key(key));
            }
            let c: usize = (key / 256) as usize;
            let kind = self.channels[c];
            let ghost keys_before = entry_keys(it.seq().take(it.index()));
            match kind.amplitude(n, time) {
                Some(a) => {
                    voices.push(
                        Voice {
                            channel: c as u8,
                            instrument: kind,
                            volume: self.channel_volumes[c],
                            note: n.value,
                            velocity: n.velocity,
                            amplitude: a,
                        },
                    );
                },
                None => {
                    finished.push(key);
                },
            }
            proof {
                let keys_after = entry_keys(it.seq().take(it.index() + 1));
                assert(it.seq().take(it.index() + 1).drop_last() =~= it.seq().take(it.index()));
                assert(keys_after =~= keys_before.push(key));
                assert(keys_after.drop_last() =~= keys_before);
            }
        }
        assert(entries.take(entries.len() as int) =~= entries);
        let ghost keys = entry_keys(entries);
        proof {
            assert(entries.no_duplicates());
            assert forall|k: u16| start.notes.contains_key(k) implies #[trigger] keys.contains(k) by {
                let i = choose|i: int| 0 <= i < entries.len() && entries[i] == (&k, &start.notes[k]);
                assert(keys[i] == k);
            }
            assert forall|i: int| 0 <= i < keys.len() implies start.notes.contains_key(
                #[trigger] keys[i],
            ) by {
                assert(start.notes.contains_key(*entries[i].0));
            }
            assert forall|i: int, j: int|
                0 <= i < keys.len() && 0 <= j < keys.len() && i != j implies #[trigger] keys[i]
                != #[trigger] keys[j] by {
                if keys[i] == keys[j] {
                    assert(start.notes.contains_key(*entries[i].0));
                    assert(start.notes.contains_key(*entries[j].0));
                    assert(entries[i] == entries[j]);
                }
            }
            lemma_split_keys(start, time, keys);
        }
        let ghost sounding = sounding_keys(start, time, keys);
        let ghost gone = finished_keys(start, time, keys);
        let mut j: usize = 0;
        while j < finished.len()
            invariant
                j <= finished@.len(),
                finished@ == gone,
                self.well_formed(),
                self@.channels == start.channels,
                self@.volumes == start.volumes,
                self@.todo == start.todo,
                forall|k: u16| #[trigger]
                    self@.notes.contains_key(k) <==> start.notes.contains_key(k)
                        && !finished@.take(j as int).contains(k),
                forall|k: u16| #[trigger] self@.notes.contains_key(k) ==> self@.notes[k] == start.notes[k],
            decreases finished@.len() - j,
        {
            let k = finished[j];
            self.notes.remove(&k);
            j = j + 1;
            assert(finished@.take(j as int) =~= finished@.take(j - 1).push(k));
            proof {
                lemma_push_contains(finished@.take(j - 1), k);
            }
        }
        proof {
            assert(finished@.take(j as int) =~= finished@);
            assert(self@.notes =~= start.drop_finished(time).notes);
            assert forall|v: Voice|
                voices@.contains(v) <==> exists|k: u16|
                    #[trigger] self@.notes.contains_key(k) && v == start.voice(k, time) by {
                if voices@.contains(v) {
                    let i = choose|i: int| 0 <= i < voices@.len() && voices@[i] == v;
                    assert(sounding.contains(sounding[i]));
                    assert(self@.notes.contains_key(sounding[i]));
                }
                if exists|k: u16| #[trigger] self@.notes.contains_key(k) && v == start.voice(k, time) {
                    let k = choose|k: u16| #[trigger] self@.notes.contains_key(k) && v == start.voice(k, time);
                    assert(sounding.contains(k));
                    let i = choose|i: int| 0 <= i < sounding.len() && sounding[i] == k;
                    assert(voices@[i] == v);
                }
            }
            assert forall|a: int, b: int|
                0 <= a < voices@.len() && 0 <= b < voices@.len() && a != b implies #[trigger] voices@[a]
                != #[trigger] voices@[b] by {
                assert(sounding.contains(sounding[a]));
                assert(sounding.contains(sounding[b]));
                assert(keys.contains(sounding[a]) && keys.contains(sounding[b]));
                if voices@[a] == voices@[b] {
                    lemma_voice_injective(start, time, sounding[a], sounding[b]);
                }
            }
        }
        voices
    }
}

impl Synth {
    /// The instrument on `channel`.
    pub fn instrument(&self, channel: u8) -> (k: InstrumentKind)
        requires
            self.well_formed(),
            channel < NUM_CHANNELS,
        ensures
            k == self@.channels[channel as int],
    {
        self.channels[channel as usize]
    }

    /// The volume of `channel` (127 is full).
    pub fn volume(&self, channel: u8) -> (v: u8)
        requires
            self.well_formed(),
            channel < NUM_CHANNELS,
        ensures
            v == self@.volumes[channel as int],
    {
        self.channel_volumes[channel as usize]
    }

    /// The note kept for `note` on `channel`, if it is playing or fading.
    pub fn note(&self, channel: u8, note: u8) -> (n: Option<Note>)
        requires
            channel < NUM_CHANNELS,
        ensures
            match n {
                Some(x) => self@.notes.contains_key(spec_note_key(channel, note)) && x == self@.notes[spec_note_key(channel, note)],
                None => !self@.notes.contains_key(spec_note_key(channel, note)),
            },
    {
        match self.notes.get(&note_key(channel, note)) {
            Some(x) => Some(*x),
            None => None,
        }
    }

    /// How many timed messages are still queued.
    pub fn queued(&self) -> (n: usize)
        ensures
            n == match self@.todo {
                Some(q) => q.len(),
                None => 0,
            },
    {
        match &self.todo {
            Some(q) => q.len(),
            None => 0,
        }
    }
}

/// Every key of `keys` goes to exactly one of the sounding and the finished
/// keys, and neither repeats a key when `keys` does not.
proof fn lemma_split_keys(v: SynthView, time: u64, keys: Seq<u16>)
    ensures
        forall|k: u16|
            #[trigger] sounding_keys(v, time, keys).contains(k) <==> keys.contains(k) && v.sound(k, time) is Some,
        forall|k: u16|
            #[trigger] finished_keys(v, time, keys).contains(k) <==> keys.contains(k) && v.sound(k, time) is None,
        keys.no_duplicates() ==> sounding_keys(v, time, keys).no_duplicates(),
        keys.no_duplicates() ==> finished_keys(v, time, keys).no_duplicates(),
    decreases keys.len(),
{
    if keys.len() > 0 {
        let rest = keys.drop_last();
        let last = keys.last();
        lemma_split_keys(v, time, rest);
        assert(keys == rest.push(last));
        lemma_push_contains(rest, last);
        lemma_push_contains(sounding_keys(v, time, rest), last);
        lemma_push_contains(finished_keys(v, time, rest), last);
        if keys.no_duplicates() {
            assert(!rest.contains(keys.last())) by {
                if rest.contains(keys.last()) {
                    let i = choose|i: int| 0 <= i < rest.len() && rest[i] == keys.last();
                    assert(keys[i] == keys[keys.len() - 1]);
                }
            }
            assert(rest.no_duplicates()) by {
                assert forall|a: int, b: int|
                    0 <= a < rest.len() && 0 <= b < rest.len() && a != b implies rest[a] != rest[b] by {
                    assert(rest[a] == keys[a] && rest[b] == keys[b]);
                }
            }
            lemma_push_no_duplicates(sounding_keys(v, time, rest), last);
            lemma_push_no_duplicates(finished_keys(v, time, rest), last);
        }
    }
}

/// Two notes of a well-formed state that the front end would be given
/// alike are the same note.
proof fn lemma_voice_injective(v: SynthView, time: u64, k1: u16, k2: u16)
    requires
        v.well_formed(),
        v.notes.contains_key(k1),
        v.notes.contains_key(k2),
        v.voice(k1, time) == v.voice(k2, time),
    ensures
        k1 == k2,
{
    assert(v.notes[k1].value == k1 % 256);
    assert(v.notes[k2].value == k2 % 256);
    assert(k1 / 256 < 16 && k2 / 256 < 16);
    assert(((k1 / 256) as u8) as int == k1 / 256);
    assert(((k2 / 256) as u8) as int == k2 / 256);
}

/// The due messages are the end of the queue, taken from the back.
proof fn lemma_due_indices(q: Seq<(u64, Message)>, time: u64)
    ensures
        due_messages(q, time).len() <= q.len(),
        forall|j: int|
            0 <= j < due_messages(q, time).len() ==> #[trigger] due_messages(q, time)[j] == q[q.len()
                - 1 - j] && q[q.len() - 1 - j].0 <= time,
        due_messages(q, time).len() < q.len() ==> q[q.len() - 1 - due_messages(q, time).len()].0
            > time,
    decreases q.len(),
{
    if q.len() > 0 && q.last().0 <= time {
        lemma_due_indices(q.drop_last(), time);
        let d = due_messages(q.drop_last(), time);
        assert forall|j: int| 0 <= j < due_messages(q, time).len() implies #[trigger] due_messages(
            q,
            time,
        )[j] == q[q.len() - 1 - j] && q[q.len() - 1 - j].0 <= time by {
            if j > 0 {
                assert(due_messages(q, time)[j] == d[j - 1]);
            }
        }
    }
}

/// When everything from `i` on is due and the entry before `i` (if any) is
/// not, the due messages are exactly the entries from `i` on.
proof fn lemma_due_is_suffix(q: Seq<(u64, Message)>, time: u64, i: int)
    requires
        0 <= i <= q.len(),
        forall|j: int| i <= j < q.len() ==> (#[trigger] q[j]).0 <= time,
        i > 0 ==> q[i - 1].0 > time,
    ensures
        due_messages(q, time).len() == q.len() - i,
        forall|j: int|
            0 <= j < due_messages(q, time).len() ==> #[trigger] due_messages(q, time)[j] == q[q.len()
                - 1 - j],
{
    lemma_due_indices(q, time);
    let n = due_messages(q, time).len();
    if n < q.len() - i {
        assert(q[q.len() - 1 - n].0 <= time);
    }
    if n > q.len() - i {
        assert(due_messages(q, time)[q.len() - i] == q[i - 1]);
    }
}

/// An entry at `i` that is due, with everything after it due too, is among
/// the due messages.
proof fn lemma_due_covers(q: Seq<(u64, Message)>, time: u64, i: int)
    requires
        0 <= i < q.len(),
        forall|j: int| i <= j < q.len() ==> (#[trigger] q[j]).0 <= time,
    ensures
        q.len() - 1 - i < due_messages(q, time).len(),
        due_messages(q, time)[q.len() - 1 - i] == q[i],
{
    lemma_due_indices(q, time);
    let n = due_messages(q, time).len();
    if n <= q.len() - 1 - i {
        assert(q[q.len() - 1 - n].0 <= time);
    }
}

/// Handling messages never changes the queue of timed messages, and the
/// percussion channel keeps its instrument whatever the messages.
pub proof fn lemma_handle_all_keeps_queue_and_percussion(v: SynthView, msgs: Seq<(u64, Message)>)
    requires
        v.well_formed(),
        all_valid(msgs),
    ensures
        v.handle_all(msgs).todo == v.todo,
        v.handle_all(msgs).well_formed(),
        v.handle_all(msgs).channels[PERCUSSION_CHANNEL as int] == v.channels[PERCUSSION_CHANNEL as int],
    decreases msgs.len(),
{
    if msgs.len() > 0 {
        let rest = msgs.drop_last();
        assert(all_valid(rest)) by {
            assert forall|i: int| 0 <= i < rest.len() implies (#[trigger] rest[i]).1.spec_is_valid() by {
                assert(rest[i] == msgs[i]);
            }
        }
        lemma_handle_all_keeps_queue_and_percussion(v, rest);
        lemma_handle_keeps_well_formed(v.handle_all(rest), msgs.last().0, msgs.last().1);
    }
}

/// Handling a message the synthesizer accepts keeps its state well formed.
pub proof fn lemma_handle_keeps_well_formed(v: SynthView, time: u64, msg: Message)
    requires
        v.well_formed(),
        msg.spec_is_valid(),
    ensures
        v.handle(time, msg).well_formed(),
{
    if let Message::KeyDown { channel, note, velocity } = msg {
        let k = spec_note_key(channel, note);
        assert(k == channel * 256 + note);
        assert(k % 256 == note);
    }
}

/// A synthesizer starts with the drum kit on the percussion channel, so it
/// has the drum kit there after any messages.
pub proof fn lemma_percussion_is_drum_kit(v: SynthView, msgs: Seq<(u64, Message)>)
    requires
        v.well_formed(),
        v.channels == initial_channels(),
        all_valid(msgs),
    ensures
        v.handle_all(msgs).channels[PERCUSSION_CHANNEL as int] == InstrumentKind::DrumKit,
{
    lemma_handle_all_keeps_queue_and_percussion(v, msgs);
}

/// Pressing a key and then letting it go leaves the note playing from the
/// press and let go at the release.
pub proof fn lemma_press_then_release(
    v: SynthView,
    channel: u8,
    note: u8,
    velocity: u8,
    on: u64,
    off: u64,
)
    requires
        channel < NUM_CHANNELS,
    ensures
        ({
            let w = v.handle(on, Message::KeyDown { channel, note, velocity }).handle(
                off,
                Message::KeyUp { channel, note },
            );
            let k = spec_note_key(channel, note);
            &&& w.notes.contains_key(k)
            &&& w.notes[k] == Note { value: note, velocity, start: on, end: Some(off) }
        }),
{
}

/// Letting go of a key whose note is not playing changes nothing.
pub proof fn lemma_release_of_silent_note(v: SynthView, time: u64, channel: u8, note: u8)
    requires
        !v.notes.contains_key(spec_note_key(channel, note)),
    ensures
        v.handle(time, Message::KeyUp { channel, note }) == v,
{
}

/// A note that was let go is dropped once its instrument's release time has
/// passed, and a note on a channel that plays nothing is dropped at once.
pub proof fn lemma_released_note_is_dropped(v: SynthView, k: u16, time: u64)
    requires
        v.well_formed(),
        v.notes.contains_key(k),
        v.notes[k].start <= time,
        v.channels[k as int / 256] == InstrumentKind::Empty || (v.notes[k].end matches Some(off)
            && off + v.channels[k as int / 256].spec_envelope().unwrap().release_time <= time),
    ensures
        !v.drop_finished(time).notes.contains_key(k),
{
    if v.channels[k as int / 256] != InstrumentKind::Empty {
        let env = v.channels[k as int / 256].spec_envelope().unwrap();
        let off = v.notes[k].end.unwrap();
        crate::envelope::lemma_finished_after_release(env, time as int, v.notes[k].start as int, off as int);
    }
}

/// A key that is held keeps sounding on a channel with an instrument.
pub proof fn lemma_held_note_is_kept(v: SynthView, k: u16, time: u64)
    requires
        v.well_formed(),
        v.notes.contains_key(k),
        v.notes[k].end is None,
        v.channels[k as int / 256] != InstrumentKind::Empty,
    ensures
        v.drop_finished(time).notes.contains_key(k),
        v.drop_finished(time).notes[k] == v.notes[k],
{
}

/// The queue of a synthesizer given a list of messages in order of time
/// hands out, at any time, exactly the not yet handed out messages of the
/// list that are due, in the list's order; what stays queued is the rest of
/// the list.
pub proof fn lemma_queue_plays_in_order(list: Seq<(u64, Message)>, time: u64)
    requires
        forall|i: int, j: int| 0 <= i <= j < list.len() ==> list[i].0 <= list[j].0,
    ensures
        ({
            let due = due_messages(list.reverse(), time);
            &&& due == list.take(due.len() as int)
            &&& forall|i: int| 0 <= i < due.len() ==> (#[trigger] list[i]).0 <= time
            &&& due.len() < list.len() ==> list[due.len() as int].0 > time
            &&& list.reverse().take(list.len() - due.len()) == list.skip(due.len() as int).reverse()
        }),
{
    let q = list.reverse();
    lemma_due_indices(q, time);
    let due = due_messages(q, time);
    assert(due =~= list.take(due.len() as int)) by {
        assert forall|j: int| 0 <= j < due.len() implies due[j] == list[j] by {
            assert(q[q.len() - 1 - j] == list[j]);
        }
    }
    assert forall|i: int| 0 <= i < due.len() implies (#[trigger] list[i]).0 <= time by {
        assert(due[i] == q[q.len() - 1 - i]);
        assert(q[q.len() - 1 - i] == list[i]);
    }
    if due.len() < list.len() {
        assert(q[q.len() - 1 - due.len()] == list[due.len() as int]);
    }
    assert(q.take(list.len() - due.len()) =~= list.skip(due.len() as int).reverse());
}

/// Updating with nothing due and nothing received changes nothing.
pub proof fn lemma_idle_update(v: SynthView, time: u64)
    requires
        v.due(time).len() == 0,
    ensures
        v.without_due(time).handle_all(v.due(time) + Seq::<Message>::empty().map_values(
            |m: Message| (time, m),
        )) == v,
{
    let handled = v.due(time) + Seq::<Message>::empty().map_values(|m: Message| (time, m));
    assert(handled =~= Seq::<(u64, Message)>::empty());
    if let Some(q) = v.todo {
        assert(q.take(q.len() - 0) =~= q);
    }
}

/// Polyphony: a key press or release touches only its own note; every other
/// note plays on unchanged.
pub proof fn lemma_other_notes_untouched(v: SynthView, time: u64, msg: Message, k: u16)
    requires
        match msg {
            Message::KeyDown { channel, note, .. } => k != spec_note_key(channel, note),
            Message::KeyUp { channel, note } => k != spec_note_key(channel, note),
            _ => true,
        },
    ensures
        v.handle(time, msg).notes.contains_key(k) == v.notes.contains_key(k),
        v.notes.contains_key(k) ==> v.handle(time, msg).notes[k] == v.notes[k],
{
}

/// A volume change sets the volume of the channel it addresses, whichever of
/// the sixteen channels that is (the percussion channel too), to the volume
/// it carries, and leaves the other channels' volumes, the instruments, the
/// notes and the queue as they were.
pub proof fn lemma_volume_change_sets_volume(v: SynthView, time: u64, c: u8, vol: u8)
    requires
        v.well_formed(),
        c < 16,
    ensures
        v.handle(time, Message::VolumeChange { channel: c, volume: vol }).volumes.len() == 16,
        v.handle(time, Message::VolumeChange { channel: c, volume: vol }).volumes[c as int] == vol,
        forall|d: int|
            0 <= d < 16 && d != c ==> #[trigger] v.handle(
                time,
                Message::VolumeChange { channel: c, volume: vol },
            ).volumes[d] == v.volumes[d],
        v.handle(time, Message::VolumeChange { channel: c, volume: vol }).channels == v.channels,
        v.handle(time, Message::VolumeChange { channel: c, volume: vol }).notes == v.notes,
        v.handle(time, Message::VolumeChange { channel: c, volume: vol }).todo == v.todo,
{
}

/// A program change off the percussion channel (channel 10 counting from
/// one) gives the channel the program's instrument; on the percussion
/// channel it changes nothing. The volumes, the other channels' instruments,
/// the notes and the queue stay as they were.
pub proof fn lemma_program_change_sets_instrument(v: SynthView, time: u64, c: u8, program: u8)
    requires
        v.well_formed(),
        c < 16,
    ensures
        c != 9 ==> v.handle(time, Message::ProgramChange { channel: c, program }).channels[c as int]
            == program_instrument(program),
        c == 9 ==> v.handle(time, Message::ProgramChange { channel: c, program }) == v,
        forall|d: int|
            0 <= d < 16 && d != c ==> #[trigger] v.handle(
                time,
                Message::ProgramChange { channel: c, program },
            ).channels[d] == v.channels[d],
        v.handle(time, Message::ProgramChange { channel: c, program }).volumes == v.volumes,
        v.handle(time, Message::ProgramChange { channel: c, program }).notes == v.notes,
{
}

} // verus!
