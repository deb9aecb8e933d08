//! The boundary to the rustysynth synthesis engine. The synthesizer is
//! an opaque value owned by the audio thread; this module applies the
//! drained, expanded commands of a period to it. Rendering itself
//! produces floating-point samples and stays with the caller, together
//! with `interleave_stereo` for the result.

use vstd::prelude::*;
use crate::channel::CommandChannel;
use crate::lifecycle::LifecycleController;
use crate::lifecycle::RunState;
use crate::render::begin_period;
use crate::render::SynthOp;

verus! {

/// rustysynth's SoundFont synthesizer, opaque to the verifier: nothing
/// is assumed about what a value of it holds.
#[verifier::external_type_specification]
#[verifier::external_body]
pub struct ExSynthesizer(rustysynth::Synthesizer);

/// Relies on rustysynth's `Synthesizer::note_on` to start voices for a
/// key. Its own code rejects an out-of-range channel, delegates a zero
/// velocity to `note_off`, and matches key and velocity against region
/// ranges; the MIDI value ranges required here keep its arithmetic far
/// from any edge. Nothing is assumed about the resulting audio state.
pub assume_specification[ rustysynth::Synthesizer::note_on ](
    s: &mut rustysynth::Synthesizer,
    channel: i32,
    key: i32,
    velocity: i32,
)
    requires
        0 <= channel < 16,
        0 <= key < 128,
        0 <= velocity < 128,
;

/// Relies on rustysynth's `Synthesizer::note_off` to end the voices of
/// a key; it only scans the active voices, and rejects an out-of-range
/// channel itself. Nothing is assumed about the resulting audio state.
pub assume_specification[ rustysynth::Synthesizer::note_off ](
    s: &mut rustysynth::Synthesizer,
    channel: i32,
    key: i32,
)
    requires
        0 <= channel < 16,
        0 <= key < 128,
;

/// The MIDI channel this engine plays on.
pub const MIDI_CHANNEL: i32 = 0;

/// Applies one period's operations to the synthesizer, in order, on
/// the engine's MIDI channel. An operation whose pitch or velocity
/// lies outside the seven-bit MIDI range — which the decoder never
/// produces — is skipped rather than handed to the engine.
pub fn apply_ops(synth: &mut rustysynth::Synthesizer, ops: &Vec<SynthOp>) {
    let n = ops.len();
    let mut i: usize = 0;
    while i < n
        invariant
            i <= n,
            n == ops@.len(),
        decreases n - i,
    {
        match ops[i] {
            SynthOp::On(pitch, velocity) => {
                if pitch < 128 && velocity < 128 {
                    synth.note_on(MIDI_CHANNEL, pitch as i32, velocity as i32);
                }
            },
            SynthOp::Off(pitch) => {
                if pitch < 128 {
                    synth.note_off(MIDI_CHANNEL, pitch as i32);
                }
            },
        }
        i += 1;
    }
}

/// Steps one and two of a render period against the real engine: gates
/// on the run flag, drains the channel without blocking, and applies
/// every drained command. Returns whether the caller should render this
/// period; on `false` — the flag has left `Running` — it must write
/// silence instead, and the channel is left untouched.
pub fn apply_period_commands(
    lc: &LifecycleController,
    chan: &mut CommandChannel,
    synth: &mut rustysynth::Synthesizer,
) -> (rendered: bool)
    ensures
        rendered == (lc.state == RunState::Running),
        final(chan).open == old(chan).open,
        !rendered ==> final(chan).pending@ == old(chan).pending@,
        rendered ==> final(chan).pending@.len() == 0,
{
    match begin_period(lc, chan) {
        Some(ops) => {
            apply_ops(synth, &ops);
            true
        },
        None => false,
    }
}

} // verus!
