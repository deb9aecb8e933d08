use midi_engine::channel::{CommandChannel, SynthMessage};
use midi_engine::lifecycle::{LifecycleController, RunState};

#[test]
fn drain_returns_sent_commands_in_order_exactly_once() {
    let mut c = CommandChannel::new();
    c.send(SynthMessage::NoteOn(60, 100));
    c.send(SynthMessage::NoteOff(60));
    c.send(SynthMessage::Stop);
    let drained = c.drain();
    assert_eq!(
        drained,
        vec![SynthMessage::NoteOn(60, 100), SynthMessage::NoteOff(60), SynthMessage::Stop]
    );
    // each command is delivered exactly once
    assert_eq!(c.drain(), Vec::<SynthMessage>::new());
}

#[test]
fn drain_of_empty_channel_is_empty() {
    let mut c = CommandChannel::new();
    assert_eq!(c.drain(), Vec::<SynthMessage>::new());
}

#[test]
fn send_after_close_is_dropped_silently() {
    let mut c = CommandChannel::new();
    c.send(SynthMessage::NoteOn(60, 100));
    c.close();
    c.send(SynthMessage::NoteOff(60));
    assert_eq!(c.drain(), vec![SynthMessage::NoteOn(60, 100)]);
}

#[test]
fn lifecycle_moves_forward_only() {
    let mut lc = LifecycleController::new();
    assert_eq!(lc.state, RunState::Running);
    assert!(lc.is_running());

    lc.request_stop();
    assert_eq!(lc.state, RunState::Stopping);
    assert!(!lc.is_running());

    // a repeated request is idempotent
    lc.request_stop();
    assert_eq!(lc.state, RunState::Stopping);

    lc.mark_stopped();
    assert_eq!(lc.state, RunState::Stopped);

    // no transition leads backwards
    lc.request_stop();
    lc.mark_stopped();
    assert_eq!(lc.state, RunState::Stopped);
}

#[test]
fn mark_stopped_needs_a_stop_request_first() {
    let mut lc = LifecycleController::new();
    lc.mark_stopped();
    assert_eq!(lc.state, RunState::Running);
}
