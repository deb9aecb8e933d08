//! Audio-thread logic for one render period: the non-blocking drain of
//! the command channel, the expansion of commands into primitive
//! synthesizer operations, and the interleaving of rendered channels
//! into the driver's output buffer.
//!
//! Everything here runs in time bounded by the drained command count
//! and the frame count alone — there is no wait, no allocation
//! proportional to history, and no step that depends on anything but
//! this period's inputs.

use vstd::prelude::*;
use crate::channel::CommandChannel;
use crate::channel::SynthMessage;
use crate::lifecycle::LifecycleController;
use crate::lifecycle::RunState;

verus! {

/// A primitive operation on the synthesizer, pitch and velocity in
/// 0..=127 when produced by the MIDI decoder.
#[derive(Clone, Copy, PartialEq, Eq, Structural, Debug)]
pub enum SynthOp {
    On(u8, u8),
    Off(u8),
}

/// What one command asks the synthesizer to do: a stop-all becomes a
/// note-off for every pitch 0..=127, in pitch order.
pub open spec fn spec_expand(m: SynthMessage) -> Seq<SynthOp> {
    match m {
        SynthMessage::NoteOn(p, v) => seq![SynthOp::On(p, v)],
        SynthMessage::NoteOff(p) => seq![SynthOp::Off(p)],
        SynthMessage::Stop => Seq::new(128, |i: int| SynthOp::Off(i as u8)),
    }
}

/// The expansions of a command sequence, concatenated in order.
pub open spec fn spec_expand_all(msgs: Seq<SynthMessage>) -> Seq<SynthOp>
    decreases msgs.len(),
{
    if msgs.len() == 0 {
        Seq::empty()
    } else {
        spec_expand_all(msgs.drop_last()) + spec_expand(msgs.last())
    }
}

/// The expansion grows at most 128-fold: the operation count of a
/// period is bounded by the commands drained in that period, never by
/// prior history.
pub proof fn lemma_expand_all_len(msgs: Seq<SynthMessage>)
    ensures
        spec_expand_all(msgs).len() <= 128 * msgs.len(),
    decreases msgs.len(),
{
    if msgs.len() > 0 {
        lemma_expand_all_len(msgs.drop_last());
    }
}

/// Expansion distributes over concatenation.
pub proof fn lemma_expand_all_concat(a: Seq<SynthMessage>, b: Seq<SynthMessage>)
    ensures
        spec_expand_all(a + b) == spec_expand_all(a) + spec_expand_all(b),
    decreases b.len(),
{
    if b.len() == 0 {
        assert(a + b =~= a);
        assert(spec_expand_all(a) + spec_expand_all(b) =~= spec_expand_all(a));
    } else {
        lemma_expand_all_concat(a, b.drop_last());
        assert((a + b).drop_last() =~= a + b.drop_last());
        assert((a + b).last() == b.last());
        assert(spec_expand_all(a) + spec_expand_all(b.drop_last()) + spec_expand(b.last())
            =~= spec_expand_all(a) + spec_expand_all(b));
    }
}

/// A stop-all command silences every pitch before any later command of
/// the same drain takes effect: the expansion places its 128 note-offs
/// after the expansions of the commands before it and before those of
/// the commands after it.
pub proof fn lemma_stop_all_position(msgs: Seq<SynthMessage>, k: int)
    requires
        0 <= k < msgs.len(),
        msgs[k] == SynthMessage::Stop,
    ensures
        spec_expand_all(msgs) == spec_expand_all(msgs.take(k)) + Seq::new(
            128,
            |i: int| SynthOp::Off(i as u8),
        ) + spec_expand_all(msgs.skip(k + 1)),
{
    assert(msgs =~= msgs.take(k) + seq![msgs[k]] + msgs.skip(k + 1));
    lemma_expand_all_concat(msgs.take(k) + seq![msgs[k]], msgs.skip(k + 1));
    lemma_expand_all_concat(msgs.take(k), seq![msgs[k]]);
    let single = seq![msgs[k]];
    assert(single.last() == msgs[k]);
    assert(single.drop_last() =~= Seq::<SynthMessage>::empty());
    assert(spec_expand_all(single) == spec_expand_all(single.drop_last()) + spec_expand(
        single.last()));
    assert(spec_expand_all(single) =~= spec_expand(SynthMessage::Stop));
}

/// Expands drained commands into primitive operations, in order.
pub fn expand_messages(msgs: &Vec<SynthMessage>) -> (ops: Vec<SynthOp>)
    ensures
        ops@ == spec_expand_all(msgs@),
{
    let mut ops: Vec<SynthOp> = Vec::new();
    proof {
        assert(msgs@.take(0) =~= Seq::<SynthMessage>::empty());
    }
    let n = msgs.len();
    let mut i: usize = 0;
    while i < n
        invariant
            i <= n,
            n == msgs@.len(),
            ops@ == spec_expand_all(msgs@.take(i as int)),
        decreases n - i,
    {
        let ghost prev = ops@;
        match msgs[i] {
            SynthMessage::NoteOn(p, v) => {
                ops.push(SynthOp::On(p, v));
                proof {
                    assert(ops@ =~= prev + spec_expand(msgs@[i as int]));
                }
            },
            SynthMessage::NoteOff(p) => {
                ops.push(SynthOp::Off(p));
                proof {
                    assert(ops@ =~= prev + spec_expand(msgs@[i as int]));
                }
            },
            SynthMessage::Stop => {
                let mut p: u8 = 0;
                while p < 128
                    invariant
                        p <= 128,
                        ops@ == prev + Seq::new(p as nat, |k: int| SynthOp::Off(k as u8)),
                    decreases 128 - p,
                {
                    ops.push(SynthOp::Off(p));
                    proof {
                        assert(ops@ =~= prev + Seq::new(
                            (p + 1) as nat,
                            |k: int| SynthOp::Off(k as u8),
                        ));
                    }
                    p += 1;
                }
                proof {
                    assert(ops@ =~= prev + spec_expand(msgs@[i as int]));
                }
            },
        }
        proof {
            assert(msgs@.take(i + 1).drop_last() =~= msgs@.take(i as int));
            assert(msgs@.take(i + 1).last() == msgs@[i as int]);
        }
        i += 1;
    }
    proof {
        assert(msgs@.take(n as int) =~= msgs@);
    }
    ops
}

/// Step one and two of a render period. While the run flag is
/// `Running`, drains the channel and returns the expanded operations to
/// apply before rendering; once it is not, returns `None` — the caller
/// must emit silence for the period — and leaves the channel alone.
pub fn begin_period(lc: &LifecycleController, chan: &mut CommandChannel) -> (ops: Option<
    Vec<SynthOp>,
>)
    ensures
        final(chan).open == old(chan).open,
        lc.state != RunState::Running ==> ops is None && final(chan).pending@ == old(
            chan,
        ).pending@,
        lc.state == RunState::Running ==> (ops matches Some(v) && v@ == spec_expand_all(
            old(chan).pending@,
        ) && v@.len() <= 128 * old(chan).pending@.len() && final(chan).pending@.len() == 0),
{
    if !lc.is_running() {
        return None;
    }
    let msgs = chan.drain();
    let ops = expand_messages(&msgs);
    proof {
        lemma_expand_all_len(msgs@);
    }
    Some(ops)
}

/// Interleaves the rendered left and right channels into a stereo
/// output buffer: frame `i` occupies `dest[2*i]` and `dest[2*i + 1]`.
/// The buffers are caller-owned and reused across periods; nothing is
/// allocated here.
pub fn interleave_stereo<T: Copy>(left: &Vec<T>, right: &Vec<T>, dest: &mut Vec<T>)
    requires
        right@.len() == left@.len(),
        old(dest)@.len() == 2 * left@.len(),
    ensures
        final(dest)@.len() == old(dest)@.len(),
        forall|i: int|
            0 <= i < left@.len() ==> final(dest)@[2 * i] == left@[i] && final(dest)@[2 * i + 1]
                == right@[i],
{
    let n = left.len();
    let total = dest.len();
    let mut i: usize = 0;
    while i < n
        invariant
            i <= n,
            n == left@.len(),
            right@.len() == n,
            dest@.len() == total,
            total == 2 * n,
            forall|k: int|
                0 <= k < i ==> dest@[2 * k] == left@[k] && dest@[2 * k + 1] == right@[k],
        decreases n - i,
    {
        dest[2 * i] = left[i];
        dest[2 * i + 1] = right[i];
        i += 1;
    }
}

/// Writes one value, normally the zero sample, over the whole output
/// buffer: the silent period emitted after shutdown or on a render
/// error.
pub fn fill_with<T: Copy>(dest: &mut Vec<T>, value: T)
    ensures
        final(dest)@.len() == old(dest)@.len(),
        forall|i: int| 0 <= i < final(dest)@.len() ==> final(dest)@[i] == value,
{
    let n = dest.len();
    let mut i: usize = 0;
    while i < n
        invariant
            i <= n,
            dest@.len() == n,
            forall|k: int| 0 <= k < i ==> dest@[k] == value,
        decreases n - i,
    {
        dest[i] = value;
        i += 1;
    }
}

} // verus!
