//! A real-time MIDI audio engine with a streaming pattern-recognition
//! layer. Incoming note events are forwarded to a SoundFont synthesizer
//! for immediate rendering and simultaneously matched against a
//! configured library of multi-note trigger sequences; completing a
//! sequence fires its action id.
//!
//! The modules follow the engine's structure: `trie` compiles the
//! configured patterns into a shared prefix tree, `matcher` advances
//! the live partial matches on every note, `channel` carries commands
//! from the MIDI and control threads to the audio thread, `render` and
//! `synth` make up the audio callback's period work, `lifecycle` is
//! the monotonic run flag, and `midi` decodes raw messages and drives
//! the per-event logic.

pub mod channel;
pub mod lifecycle;
pub mod matcher;
pub mod midi;
pub mod render;
pub mod synth;
pub mod trie;
