use midi_engine::channel::{CommandChannel, SynthMessage};
use midi_engine::lifecycle::LifecycleController;
use midi_engine::matcher::PatternMatcher;
use midi_engine::midi::{
    decode_midi, handle_midi_event, remap_velocity, EngineConfig, EventKind, NoteEvent,
};
use midi_engine::render::{begin_period, expand_messages, fill_with, interleave_stereo, SynthOp};
use midi_engine::trie::{Pattern, PatternLibrary, Token};

fn config() -> EngineConfig {
    EngineConfig { enable_matching: true, enable_audio: true, velocity_scale_percent: 230 }
}

fn one_pattern_lib() -> PatternLibrary {
    let patterns = vec![Pattern { tokens: vec![Token::Pitch(60), Token::Pitch(61)], action: 9 }];
    PatternLibrary::from_patterns(&patterns)
}

#[test]
fn decode_note_messages() {
    assert_eq!(
        decode_midi(0x90, 60, 100),
        Some(NoteEvent { pitch: 60, velocity: 100, kind: EventKind::On })
    );
    // the low status nibble is the channel and does not matter
    assert_eq!(
        decode_midi(0x93, 60, 100),
        Some(NoteEvent { pitch: 60, velocity: 100, kind: EventKind::On })
    );
    assert_eq!(
        decode_midi(0x80, 60, 40),
        Some(NoteEvent { pitch: 60, velocity: 40, kind: EventKind::Off })
    );
    // note-on with velocity zero is a note-off by convention
    assert_eq!(
        decode_midi(0x90, 60, 0),
        Some(NoteEvent { pitch: 60, velocity: 0, kind: EventKind::Off })
    );
    // other messages and overlong data bytes are not note events
    assert_eq!(decode_midi(0xB0, 7, 100), None);
    assert_eq!(decode_midi(0x90, 200, 10), None);
    assert_eq!(decode_midi(0x90, 60, 200), None);
}

#[test]
fn velocity_remap_scales_and_clamps() {
    assert_eq!(remap_velocity(30, 230), 69);
    assert_eq!(remap_velocity(64, 230), 127); // 147 clamped
    assert_eq!(remap_velocity(0, 230), 0);
    assert_eq!(remap_velocity(127, 100), 127);
    assert_eq!(remap_velocity(100, 50), 50);
}

#[test]
fn note_on_reaches_channel_and_matcher() {
    let cfg = config();
    let lc = LifecycleController::new();
    let lib = one_pattern_lib();
    let mut m = PatternMatcher::new();
    let mut chan = CommandChannel::new();

    let acts = handle_midi_event(&cfg, &lc, &lib, &mut m, &mut chan, 0x90, 60, 30);
    assert_eq!(acts, Vec::<u32>::new());
    assert_eq!(m.live.len(), 1);
    assert_eq!(chan.drain(), vec![SynthMessage::NoteOn(60, 69)]);

    let acts = handle_midi_event(&cfg, &lc, &lib, &mut m, &mut chan, 0x90, 61, 30);
    assert_eq!(acts, vec![9]);
}

#[test]
fn velocity_zero_note_on_does_not_advance_matcher() {
    let cfg = config();
    let lc = LifecycleController::new();
    let lib = one_pattern_lib();
    let mut m = PatternMatcher::new();
    let mut chan = CommandChannel::new();

    handle_midi_event(&cfg, &lc, &lib, &mut m, &mut chan, 0x90, 60, 30);
    let live_before = m.live.clone();
    // velocity zero: forwarded as a note-off, matcher untouched
    let acts = handle_midi_event(&cfg, &lc, &lib, &mut m, &mut chan, 0x90, 61, 0);
    assert_eq!(acts, Vec::<u32>::new());
    assert_eq!(m.live, live_before);
    assert_eq!(
        chan.drain(),
        vec![SynthMessage::NoteOn(60, 69), SynthMessage::NoteOff(61)]
    );
}

#[test]
fn note_off_does_not_advance_matcher() {
    let cfg = config();
    let lc = LifecycleController::new();
    let lib = one_pattern_lib();
    let mut m = PatternMatcher::new();
    let mut chan = CommandChannel::new();

    handle_midi_event(&cfg, &lc, &lib, &mut m, &mut chan, 0x90, 60, 30);
    let live_before = m.live.clone();
    let acts = handle_midi_event(&cfg, &lc, &lib, &mut m, &mut chan, 0x80, 61, 30);
    assert_eq!(acts, Vec::<u32>::new());
    assert_eq!(m.live, live_before);
}

#[test]
fn events_after_stop_request_are_ignored() {
    let cfg = config();
    let mut lc = LifecycleController::new();
    let lib = one_pattern_lib();
    let mut m = PatternMatcher::new();
    let mut chan = CommandChannel::new();

    lc.request_stop();
    let acts = handle_midi_event(&cfg, &lc, &lib, &mut m, &mut chan, 0x90, 60, 30);
    assert_eq!(acts, Vec::<u32>::new());
    assert_eq!(m.live.len(), 0);
    assert_eq!(chan.drain(), Vec::<SynthMessage>::new());
}

#[test]
fn disabled_matching_leaves_matcher_alone() {
    let cfg = EngineConfig { enable_matching: false, enable_audio: true, velocity_scale_percent: 100 };
    let lc = LifecycleController::new();
    let lib = one_pattern_lib();
    let mut m = PatternMatcher::new();
    let mut chan = CommandChannel::new();

    let acts = handle_midi_event(&cfg, &lc, &lib, &mut m, &mut chan, 0x90, 60, 30);
    assert_eq!(acts, Vec::<u32>::new());
    assert_eq!(m.live.len(), 0);
    assert_eq!(chan.drain(), vec![SynthMessage::NoteOn(60, 30)]);
}

#[test]
fn disabled_audio_sends_no_commands() {
    let cfg = EngineConfig { enable_matching: true, enable_audio: false, velocity_scale_percent: 100 };
    let lc = LifecycleController::new();
    let lib = one_pattern_lib();
    let mut m = PatternMatcher::new();
    let mut chan = CommandChannel::new();

    handle_midi_event(&cfg, &lc, &lib, &mut m, &mut chan, 0x90, 60, 30);
    assert_eq!(m.live.len(), 1);
    assert_eq!(chan.drain(), Vec::<SynthMessage>::new());
}

#[test]
fn stop_all_expands_to_every_pitch_in_order() {
    let msgs = vec![
        SynthMessage::NoteOn(60, 50),
        SynthMessage::Stop,
        SynthMessage::NoteOn(61, 30),
    ];
    let ops = expand_messages(&msgs);
    assert_eq!(ops.len(), 1 + 128 + 1);
    assert_eq!(ops[0], SynthOp::On(60, 50));
    for p in 0..128u8 {
        assert_eq!(ops[1 + p as usize], SynthOp::Off(p));
    }
    // the note-offs land before the command that followed the stop-all
    assert_eq!(ops[129], SynthOp::On(61, 30));
}

#[test]
fn running_period_drains_and_expands() {
    let lc = LifecycleController::new();
    let mut chan = CommandChannel::new();
    chan.send(SynthMessage::NoteOn(60, 50));
    chan.send(SynthMessage::NoteOff(60));

    let ops = begin_period(&lc, &mut chan).expect("running period must drain");
    assert_eq!(ops, vec![SynthOp::On(60, 50), SynthOp::Off(60)]);
    assert_eq!(chan.drain(), Vec::<SynthMessage>::new());
}

#[test]
fn stopped_period_is_silent_and_leaves_channel_alone() {
    let mut lc = LifecycleController::new();
    let mut chan = CommandChannel::new();
    chan.send(SynthMessage::NoteOn(60, 50));

    lc.request_stop();
    assert!(begin_period(&lc, &mut chan).is_none());
    // the channel was not drained
    assert_eq!(chan.drain(), vec![SynthMessage::NoteOn(60, 50)]);

    // a silent period overwrites the whole output buffer
    let mut out = vec![0.25f32; 8];
    fill_with(&mut out, 0.0f32);
    assert!(out.iter().all(|s| *s == 0.0));
}

#[test]
fn interleave_alternates_left_and_right() {
    let left = vec![1.0f32, 2.0, 3.0];
    let right = vec![-1.0f32, -2.0, -3.0];
    let mut out = vec![0.0f32; 6];
    interleave_stereo(&left, &right, &mut out);
    assert_eq!(out, vec![1.0, -1.0, 2.0, -2.0, 3.0, -3.0]);
}
