//! The command conduit between the MIDI and control producers and the
//! audio-thread consumer. A producer hands a command over with `send`,
//! which never blocks and never fails observably; the consumer takes
//! everything accumulated since its last visit with `drain`, in
//! submission order, without waiting.
//!
//! The synthesizer's state is owned by the audio thread alone; every
//! outside influence on it arrives as an immutable command value
//! through this conduit, so the audio callback never contends on a
//! lock for it.

use vstd::prelude::*;

verus! {

/// A command for the audio thread: start a note, stop a note, or stop
/// every sounding note at once.
#[derive(Clone, Copy, PartialEq, Eq, Structural, Debug)]
pub enum SynthMessage {
    /// Start the note `(pitch, velocity)`.
    NoteOn(u8, u8),
    /// Stop the note with this pitch.
    NoteOff(u8),
    /// Stop every pitch: expands to a note-off for all of 0..=127.
    Stop,
}

/// The queue of commands submitted since the consumer's last drain,
/// plus whether the consumer is still there. Commands sent after
/// teardown are dropped silently: that must never surface as an error
/// in a MIDI or audio callback.
pub struct CommandChannel {
    pub pending: Vec<SynthMessage>,
    pub open: bool,
}

impl CommandChannel {
    /// An empty, open channel.
    pub fn new() -> (c: CommandChannel)
        ensures
            c.pending@.len() == 0,
            c.open,
    {
        CommandChannel { pending: Vec::new(), open: true }
    }

    /// Submits one command. While the channel is open the command is
    /// appended after everything submitted before it; after teardown it
    /// is dropped. Never blocks, never reports failure.
    pub fn send(&mut self, msg: SynthMessage)
        ensures
            final(self).open == old(self).open,
            old(self).open ==> final(self).pending@ == old(self).pending@.push(msg),
            !old(self).open ==> final(self).pending@ == old(self).pending@,
    {
        if self.open {
            self.pending.push(msg);
        }
    }

    /// Takes every pending command, in submission order, each exactly
    /// once; the channel is empty afterwards. Returns immediately.
    pub fn drain(&mut self) -> (cmds: Vec<SynthMessage>)
        ensures
            cmds@ == old(self).pending@,
            final(self).pending@.len() == 0,
            final(self).open == old(self).open,
    {
        let mut cmds: Vec<SynthMessage> = Vec::new();
        core::mem::swap(&mut cmds, &mut self.pending);
        cmds
    }

    /// Tears the consumer side down: later sends are dropped silently.
    pub fn close(&mut self)
        ensures
            !final(self).open,
            final(self).pending@ == old(self).pending@,
    {
        self.open = false;
    }
}

} // verus!
