use vstd::prelude::*;

verus! {

/// A note or controller message that drives the synthesizer.
#[derive(Debug, Clone, Copy, PartialEq, Eq, Structural)]
pub enum Message {
    KeyDown { channel: u8, note: u8, velocity: u8 },
    KeyUp { channel: u8, note: u8 },
    ProgramChange { channel: u8, program: u8 },
    VolumeChange { channel: u8, volume: u8 },
}

/// Number of MIDI channels the synthesizer has.
pub const NUM_CHANNELS: u8 = 16;

/// The percussion channel (channel 10 counting from one).
pub const PERCUSSION_CHANNEL: u8 = 9;

impl Message {
    /// The channel that the message addresses.
    pub open spec fn spec_channel(&self) -> u8 {
        match *self {
            Message::KeyDown { channel, .. } => channel,
            Message::KeyUp { channel, .. } => channel,
            Message::ProgramChange { channel, .. } => channel,
            Message::VolumeChange { channel, .. } => channel,
        }
    }

    /// A message the synthesizer can handle: its channel exists, and a
    /// program change off the percussion channel names a General MIDI
    /// program (0 to 127).
    pub open spec fn spec_is_valid(&self) -> bool {
        match *self {
            Message::ProgramChange { channel, program } =>
                channel == PERCUSSION_CHANNEL || (channel < NUM_CHANNELS && program < 128),
            _ => self.spec_channel() < NUM_CHANNELS,
        }
    }

    /// The channel that the message addresses.
    #[verifier::when_used_as_spec(spec_channel)]
    pub fn channel(&self) -> (c: u8)
        ensures
            c == self.spec_channel(),
    {
        match self {
            Message::KeyDown { channel, .. } => *channel,
            Message::KeyUp { channel, .. } => *channel,
            Message::ProgramChange { channel, .. } => *channel,
            Message::VolumeChange { channel, .. } => *channel,
        }
    }

    /// Whether the synthesizer can handle the message.
    #[verifier::when_used_as_spec(spec_is_valid)]
    pub fn is_valid(&self) -> (b: bool)
        ensures
            b == self.spec_is_valid(),
    {
        match self {
            Message::ProgramChange { channel, program } =>
                *channel == PERCUSSION_CHANNEL || (*channel < NUM_CHANNELS && *program < 128),
            _ => self.channel() < NUM_CHANNELS,
        }
    }
}

/// Which messages the synthesizer can handle: a message is valid exactly when
/// it addresses one of the sixteen channels and, for a program change off the
/// percussion channel (channel 10 counting from one), names a program from 0
/// to 127. In particular every program change from 0 to 127 on any of the
/// sixteen channels is valid.
pub proof fn lemma_valid_messages(m: Message)
    ensures
        m.spec_is_valid() == match m {
            Message::ProgramChange { channel, program } => channel == 9 || (channel < 16 && program
                < 128),
            _ => m.spec_channel() < 16,
        },
        m.spec_channel() < 16 && (m matches Message::ProgramChange { program, .. } ==> program
            < 128) ==> m.spec_is_valid(),
{
}

} // verus!
