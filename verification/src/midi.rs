//! MIDI-thread logic: decoding raw status/data bytes into note events,
//! the configurable velocity remap, and the handler that feeds one
//! event to the command channel and the pattern matcher.

use vstd::prelude::*;
use crate::channel::CommandChannel;
use crate::channel::SynthMessage;
use crate::lifecycle::LifecycleController;
use crate::lifecycle::RunState;
use crate::matcher::interpret_note;
use crate::matcher::spec_advance_emits;
use crate::matcher::spec_advance_live;
use crate::matcher::PatternMatcher;
use crate::trie::PatternLibrary;

verus! {

/// What a decoded MIDI message asks for.
#[derive(Clone, Copy, PartialEq, Eq, Structural, Debug)]
pub enum EventKind {
    On,
    Off,
}

/// A decoded note event. Pitch and velocity are always in 0..=127.
#[derive(Clone, Copy, PartialEq, Eq, Structural, Debug)]
pub struct NoteEvent {
    pub pitch: u8,
    pub velocity: u8,
    pub kind: EventKind,
}

/// The MIDI note-message convention: status nibble 0x9 with a positive
/// velocity is note-on; status nibble 0x8, or 0x9 with velocity zero,
/// is note-off. Data bytes are seven-bit; a message whose data bytes
/// overflow that range, or with any other status, is not a note event.
pub open spec fn spec_decode(status: u8, data1: u8, data2: u8) -> Option<NoteEvent> {
    if data1 >= 128 || data2 >= 128 {
        None
    } else if status & 0xf0 == 0x90 && data2 > 0 {
        Some(NoteEvent { pitch: data1, velocity: data2, kind: EventKind::On })
    } else if status & 0xf0 == 0x80 || (status & 0xf0 == 0x90 && data2 == 0) {
        Some(NoteEvent { pitch: data1, velocity: data2, kind: EventKind::Off })
    } else {
        None
    }
}

/// Decodes one raw MIDI message into a note event, if it is one.
pub fn decode_midi(status: u8, data1: u8, data2: u8) -> (r: Option<NoteEvent>)
    ensures
        r == spec_decode(status, data1, data2),
{
    if data1 >= 128 || data2 >= 128 {
        None
    } else if status & 0xf0 == 0x90 && data2 > 0 {
        Some(NoteEvent { pitch: data1, velocity: data2, kind: EventKind::On })
    } else if status & 0xf0 == 0x80 || (status & 0xf0 == 0x90 && data2 == 0) {
        Some(NoteEvent { pitch: data1, velocity: data2, kind: EventKind::Off })
    } else {
        None
    }
}

/// An incoming velocity scaled by `percent` and clamped into the valid
/// range: the configurable remap applied before a note-on is forwarded
/// to the synthesizer.
pub open spec fn spec_remap(v: u8, percent: u32) -> u8 {
    if v * percent / 100 > 127 {
        127
    } else {
        (v * percent / 100) as u8
    }
}

/// Scales a velocity by `percent` and clamps the result to 0..=127.
pub fn remap_velocity(v: u8, percent: u32) -> (r: u8)
    ensures
        r == spec_remap(v, percent),
        r <= 127,
{
    proof {
        assert((v as int) * (percent as int) <= 255 * 0xffff_ffff) by (nonlinear_arith)
            requires
                v as int <= 255,
                percent as int <= 0xffff_ffff,
        ;
    }
    let scaled: u64 = (v as u64) * (percent as u64) / 100;
    if scaled > 127 {
        127
    } else {
        scaled as u8
    }
}

/// The engine's startup configuration. Patterns are compiled separately
/// into a `PatternLibrary`.
#[derive(Clone, Copy, PartialEq, Eq, Structural, Debug)]
pub struct EngineConfig {
    /// Whether incoming notes advance the pattern matcher.
    pub enable_matching: bool,
    /// Whether incoming notes are forwarded to the synthesizer.
    pub enable_audio: bool,
    /// The velocity remap factor, in percent; 100 leaves velocities as
    /// they arrive.
    pub velocity_scale_percent: u32,
}

/// The command a decoded event submits for the audio thread, if audio
/// output is enabled: the note-on velocity is remapped first.
pub open spec fn spec_midi_message(cfg: EngineConfig, ev: NoteEvent) -> Option<SynthMessage> {
    if !cfg.enable_audio {
        None
    } else {
        match ev.kind {
            EventKind::On => Some(
                SynthMessage::NoteOn(ev.pitch, spec_remap(ev.velocity, cfg.velocity_scale_percent)),
            ),
            EventKind::Off => Some(SynthMessage::NoteOff(ev.pitch)),
        }
    }
}

/// Handles one raw MIDI message on the MIDI thread: decodes it, submits
/// the matching command for the audio thread, advances the matcher on a
/// note-on, and returns the action ids of the patterns that completed,
/// for the caller to hand to its dispatcher.
///
/// Once the run flag has left `Running`, or when the bytes are not a
/// note message, nothing happens at all. A note-on with velocity zero
/// decodes as a note-off, so it never advances the matcher. Note-offs
/// are forwarded to the synthesizer but ignored by the matcher, whose
/// steps also never read the velocity.
pub fn handle_midi_event(
    cfg: &EngineConfig,
    lc: &LifecycleController,
    lib: &PatternLibrary,
    matcher: &mut PatternMatcher,
    chan: &mut CommandChannel,
    status: u8,
    data1: u8,
    data2: u8,
) -> (acts: Vec<u32>)
    requires
        lib.wf(),
        old(matcher).wf(*lib),
    ensures
        final(matcher).wf(*lib),
        final(chan).open == old(chan).open,
        lc.state != RunState::Running || spec_decode(status, data1, data2) is None ==> {
            &&& *final(matcher) == *old(matcher)
            &&& final(chan).pending@ == old(chan).pending@
            &&& acts@.len() == 0
        },
        lc.state == RunState::Running ==> (spec_decode(status, data1, data2) matches Some(ev) ==> {
            &&& final(chan).pending@ == (match spec_midi_message(*cfg, ev) {
                Some(msg) => if old(chan).open {
                    old(chan).pending@.push(msg)
                } else {
                    old(chan).pending@
                },
                None => old(chan).pending@,
            })
            &&& (ev.kind == EventKind::On && cfg.enable_matching ==> {
                &&& final(matcher).live@ == spec_advance_live(*lib, old(matcher).live@, ev.pitch)
                &&& acts@ == spec_advance_emits(*lib, old(matcher).live@, ev.pitch)
            })
            &&& (ev.kind == EventKind::Off || !cfg.enable_matching ==> *final(matcher) == *old(
                matcher,
            ) && acts@.len() == 0)
        }),
{
    if !lc.is_running() {
        return Vec::new();
    }
    let ev = match decode_midi(status, data1, data2) {
        Some(ev) => ev,
        None => {
            return Vec::new();
        },
    };
    match ev.kind {
        EventKind::On => {
            if cfg.enable_audio {
                let vel = remap_velocity(ev.velocity, cfg.velocity_scale_percent);
                chan.send(SynthMessage::NoteOn(ev.pitch, vel));
            }
            if cfg.enable_matching {
                interpret_note(lib, matcher, ev.pitch)
            } else {
                Vec::new()
            }
        },
        EventKind::Off => {
            if cfg.enable_audio {
                chan.send(SynthMessage::NoteOff(ev.pitch));
            }
            Vec::new()
        },
    }
}

} // verus!
