# software_synth

A polyphonic software synthesizer and MIDI file player. The library in
`src/` holds its logic, verified with Verus; `app/` is the program around it.

- `src/envelope.rs`: ADSR envelopes over integer time (picoseconds) and
  integer levels (millionths of full scale), with their laws.
- `src/instrument.rs`: notes, the instruments and their envelopes, and the
  instrument each General MIDI program selects.
- `src/message.rs`: the messages that drive the synthesizer.
- `src/synth.rs`: the synthesizer's state (instrument and volume per
  channel, the notes playing, the queue of timed messages), how messages
  change it, and which notes still sound.
- `src/midi.rs`: the clock and event list of a MIDI file being read, and the
  time-ordered messages it stands for.
- `src/keyboard.rs`: the computer keyboard as an instrument, one frame at a
  time.
- `src/output.rs`: the time of each value of the output stream.
- `app/`: command line, MIDI file reading, audio output, the window, and the
  floating-point waveforms.
