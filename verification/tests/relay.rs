use sfu::ids::{MediaKind, ParticipantId};
use sfu::relay::{MediaRelay, VoiceActivityState, SPEAKING_THRESHOLD_LEVEL, SPEAKING_TIMEOUT_MS};

/// The smoothed level after an Opus packet of `payload_len` bytes: the
/// moving average `0.7 * previous + 0.3 * energy`, where the energy is the
/// packet size over 200 bytes, at most one, and zero for silence packets of
/// two bytes or less.
fn smoothed_level(previous_key: u64, payload_len: usize) -> u64 {
    let previous = f64::from_bits(previous_key);
    let energy = if payload_len > 2 { (payload_len as f64 / 200.0).min(1.0) } else { 0.0 };
    (previous * 0.7 + energy * 0.3).to_bits()
}

fn feed_audio(relay: &mut MediaRelay, pid: &ParticipantId, payload_len: usize, now: u64) {
    let level = smoothed_level(relay.voice_level(pid), payload_len);
    relay.update_voice_activity(pid, MediaKind::Audio, level, now);
}

fn state(level: f64, now: u64, speaking: bool) -> VoiceActivityState {
    VoiceActivityState { level: level.to_bits(), last_audio_ms: now, is_speaking: speaking }
}

#[test]
fn test_active_speaker_detection() {
    let relay = MediaRelay::new();
    assert!(relay.active_speaker().is_none());
}

#[test]
fn test_voice_activity_detection() {
    let mut relay = MediaRelay::new();
    let p1 = ParticipantId::new(1);
    let p2 = ParticipantId::new(2);
    let now = 10_000;

    // Silence packet should not trigger speaking
    feed_audio(&mut relay, &p1, 1, now);
    assert!(!relay.is_speaking(&p1, now));

    // Larger packet should trigger speaking
    feed_audio(&mut relay, &p1, 200, now);
    assert!(relay.is_speaking(&p1, now));

    // Another participant with higher energy becomes active speaker
    feed_audio(&mut relay, &p2, 400, now);
    assert_eq!(relay.active_speaker(), Some(p2));
}

#[test]
fn test_pipe_transport_registration() {
    let mut relay = MediaRelay::new();
    let p1 = ParticipantId::new(1);
    relay.register_pipe_transport(p1);
    assert!(relay.is_pipe_transport(&p1));
    relay.unregister_pipe_transport(&p1);
    assert!(!relay.is_pipe_transport(&p1));
}

#[test]
fn test_speaking_timeout() {
    let mut relay = MediaRelay::new();
    let p1 = ParticipantId::new(1);
    let now = 10_000;

    feed_audio(&mut relay, &p1, 200, now);
    assert!(relay.is_speaking(&p1, now));

    // The last audio is now older than the timeout.
    assert!(!relay.is_speaking(&p1, now + SPEAKING_TIMEOUT_MS + 10));
}

#[test]
fn test_multiple_participants_speaking() {
    let mut relay = MediaRelay::new();
    let p1 = ParticipantId::new(1);
    let p2 = ParticipantId::new(2);
    let p3 = ParticipantId::new(3);
    let now = 10_000;

    feed_audio(&mut relay, &p1, 50, now);
    feed_audio(&mut relay, &p2, 400, now);
    feed_audio(&mut relay, &p3, 150, now);

    // p2 has highest energy → active speaker
    assert_eq!(relay.active_speaker(), Some(p2));
}

#[test]
fn test_voice_activity_with_direct_state() {
    let mut relay = MediaRelay::new();
    let p1 = ParticipantId::new(1);
    let p2 = ParticipantId::new(2);
    let now = 10_000;

    relay.set_voice_state(&p1, state(0.8, now, true));
    relay.set_voice_state(&p2, state(0.2, now, true));

    relay.update_active_speaker(now);
    assert_eq!(relay.active_speaker(), Some(p1));
}

#[test]
fn test_remove_participant() {
    let mut relay = MediaRelay::new();
    let p1 = ParticipantId::new(1);
    let now = 10_000;

    relay.set_voice_state(&p1, state(0.5, now, true));
    relay.update_active_speaker(now);
    assert_eq!(relay.active_speaker(), Some(p1));

    relay.remove_participant(&p1, now);
    assert!(relay.active_speaker().is_none());
    assert!(!relay.is_speaking(&p1, now));
}

#[test]
fn threshold_key_is_one_hundredth() {
    assert_eq!(SPEAKING_THRESHOLD_LEVEL, 0.01f64.to_bits());
}

#[test]
fn audio_level_is_recorded_with_its_time() {
    let mut relay = MediaRelay::new();
    let p1 = ParticipantId::new(7);
    relay.update_voice_activity(&p1, MediaKind::Audio, 0.3f64.to_bits(), 1234);
    let st = relay.voice_state(&p1).unwrap();
    assert_eq!(st.level, 0.3f64.to_bits());
    assert_eq!(st.last_audio_ms, 1234);
    assert!(st.is_speaking);
    assert_eq!(relay.voice_level(&p1), 0.3f64.to_bits());
    assert_eq!(relay.voice_level(&ParticipantId::new(8)), 0);
}

#[test]
fn level_at_threshold_is_not_speech() {
    let mut relay = MediaRelay::new();
    let p1 = ParticipantId::new(1);
    relay.update_voice_activity(&p1, MediaKind::Audio, SPEAKING_THRESHOLD_LEVEL, 100);
    assert!(!relay.is_speaking(&p1, 100));
    assert!(relay.active_speaker().is_none());
}

#[test]
fn video_changes_no_voice_activity() {
    let mut relay = MediaRelay::new();
    let p1 = ParticipantId::new(1);
    relay.update_voice_activity(&p1, MediaKind::Video, 0.9f64.to_bits(), 100);
    assert!(relay.voice_state(&p1).is_none());
    assert!(relay.active_speaker().is_none());
}

#[test]
fn stale_speaker_is_not_chosen() {
    let mut relay = MediaRelay::new();
    let p1 = ParticipantId::new(1);
    let p2 = ParticipantId::new(2);
    relay.set_voice_state(&p1, state(0.9, 1_000, true));
    relay.set_voice_state(&p2, state(0.1, 1_400, true));
    relay.update_active_speaker(1_000 + SPEAKING_TIMEOUT_MS + 1);
    assert_eq!(relay.active_speaker(), Some(p2));
    relay.update_active_speaker(1_400 + SPEAKING_TIMEOUT_MS + 1);
    assert!(relay.active_speaker().is_none());
}

#[test]
fn timeout_boundary_still_speaking() {
    let mut relay = MediaRelay::new();
    let p1 = ParticipantId::new(1);
    relay.set_voice_state(&p1, state(0.5, 2_000, true));
    assert!(relay.is_speaking(&p1, 2_000 + SPEAKING_TIMEOUT_MS));
    assert!(!relay.is_speaking(&p1, 2_000 + SPEAKING_TIMEOUT_MS + 1));
}

#[test]
fn removing_the_speaker_elects_the_next_loudest() {
    let mut relay = MediaRelay::new();
    let p1 = ParticipantId::new(1);
    let p2 = ParticipantId::new(2);
    let p3 = ParticipantId::new(3);
    relay.set_voice_state(&p1, state(0.9, 100, true));
    relay.set_voice_state(&p2, state(0.4, 100, true));
    relay.set_voice_state(&p3, state(0.6, 100, false));
    relay.update_active_speaker(100);
    assert_eq!(relay.active_speaker(), Some(p1));
    relay.remove_participant(&p1, 100);
    assert_eq!(relay.active_speaker(), Some(p2));
    assert!(relay.voice_state(&p1).is_none());
}

#[test]
fn removing_another_participant_keeps_the_speaker() {
    let mut relay = MediaRelay::new();
    let p1 = ParticipantId::new(1);
    let p2 = ParticipantId::new(2);
    relay.set_voice_state(&p1, state(0.9, 100, true));
    relay.set_voice_state(&p2, state(0.4, 100, true));
    relay.register_pipe_transport(p2);
    relay.update_active_speaker(100);
    relay.remove_participant(&p2, 100);
    assert_eq!(relay.active_speaker(), Some(p1));
    assert!(!relay.is_pipe_transport(&p2));
}

#[test]
fn equal_levels_go_to_the_later_participant() {
    let mut relay = MediaRelay::new();
    let p1 = ParticipantId::new(1);
    let p2 = ParticipantId::new(2);
    relay.set_voice_state(&p1, state(0.3, 100, true));
    relay.set_voice_state(&p2, state(0.3, 100, true));
    relay.update_active_speaker(100);
    assert_eq!(relay.active_speaker(), Some(p2));
}
