use sfu::ids::{MediaKind, ParticipantId, RoomId};
use sfu::peer::{OutgoingTrack, SfuPeer, TrackIn};
use sfu::server::{CommandReply, SfuAction, SfuCommand, SfuServer, RENEGOTIATION_DELAY_MS};
use std::time::Instant;
use str0m::media::Direction;
use sfu::rtc::Connection;
use str0m::Rtc;

fn new_peer(id: u64, did: &str, room: &str) -> SfuPeer {
    SfuPeer::new(ParticipantId::new(id), RoomId::new("nh", room), did.to_string(), Connection::new(Instant::now()), false, None)
}

fn pipe_peer(id: u64, remote: &str) -> SfuPeer {
    SfuPeer::new(
        ParticipantId::new(id),
        RoomId::new("nh", "room"),
        remote.to_string(),
        Connection::new(Instant::now()),
        true,
        Some(remote.to_string()),
    )
}

fn participant_events(actions: &[SfuAction]) -> Vec<(String, String, String)> {
    actions
        .iter()
        .filter_map(|a| match a {
            SfuAction::PublishParticipant(e) => Some((e.room_id.clone(), e.agent_did.clone(), e.event_type.clone())),
            _ => None,
        })
        .collect()
}

fn stream_events(actions: &[SfuAction]) -> Vec<(String, String, String)> {
    actions
        .iter()
        .filter_map(|a| match a {
            SfuAction::PublishStream(e) => Some((e.agent_did.clone(), e.track_kind.clone(), e.event_type.clone())),
            _ => None,
        })
        .collect()
}

fn offers(actions: &[SfuAction]) -> Vec<(String, String, Vec<String>)> {
    actions
        .iter()
        .filter_map(|a| match a {
            SfuAction::PublishOffer(e) => Some((e.room_id.clone(), e.agent_did.clone(), e.track_mapping.clone())),
            _ => None,
        })
        .collect()
}

fn s(x: &str) -> String {
    x.to_string()
}

#[test]
fn joining_publishes_joined() {
    let mut server = SfuServer::new();
    let actions = server.add_peer(new_peer(1, "alice", "room"), 1_000);
    assert_eq!(participant_events(&actions), vec![(s("nh:room"), s("alice"), s("joined"))]);
    assert_eq!(server.peer_count(), 1);
    assert_eq!(server.peer_id(0), ParticipantId::new(1));
}

#[test]
fn pipe_transports_join_silently() {
    let mut server = SfuServer::new();
    let actions = server.add_peer(pipe_peer(9, "did:remote"), 1_000);
    assert!(actions.is_empty());
    assert!(server.media_relay().is_pipe_transport(&ParticipantId::new(9)));
}

#[test]
fn leaving_publishes_left_and_removed_streams() {
    let mut server = SfuServer::new();
    server.add_peer(new_peer(1, "alice", "room"), 1_000);
    let a = server.media_added(0, s("0"), MediaKind::Audio);
    assert_eq!(stream_events(&[a]), vec![(s("alice"), s("audio"), s("added"))]);
    let v = server.media_added(0, s("1"), MediaKind::Video);
    assert_eq!(stream_events(&[v]), vec![(s("alice"), s("video"), s("added"))]);
    let actions = server.remove_peer(ParticipantId::new(1), 2_000);
    assert_eq!(participant_events(&actions), vec![(s("nh:room"), s("alice"), s("left"))]);
    assert_eq!(
        stream_events(&actions),
        vec![(s("alice"), s("audio"), s("removed")), (s("alice"), s("video"), s("removed"))]
    );
    assert_eq!(server.peer_count(), 0);
}

#[test]
fn removing_an_unknown_peer_changes_nothing() {
    let mut server = SfuServer::new();
    server.add_peer(new_peer(1, "alice", "room"), 1_000);
    assert!(server.remove_peer(ParticipantId::new(5), 2_000).is_empty());
    assert_eq!(server.peer_count(), 1);
}

#[test]
fn renegotiation_sends_each_peer_the_others_tracks() {
    let mut server = SfuServer::new();
    server.add_peer(new_peer(1, "alice", "room"), 1_000);
    server.add_peer(new_peer(2, "bob", "room"), 1_000);
    server.add_peer(new_peer(3, "carol", "elsewhere"), 1_000);
    server.media_added(0, s("0"), MediaKind::Audio);
    server.media_added(1, s("0"), MediaKind::Video);
    let actions = server.renegotiate_room(&RoomId::new("nh", "room"));
    let o = offers(&actions);
    assert_eq!(o.len(), 2);
    assert_eq!((o[0].0.as_str(), o[0].1.as_str()), ("nh:room", "alice"));
    assert_eq!(o[0].2.len(), 1);
    assert!(o[0].2[0].ends_with(":bob:video"));
    assert_eq!((o[1].0.as_str(), o[1].1.as_str()), ("nh:room", "bob"));
    assert_eq!(o[1].2.len(), 1);
    assert!(o[1].2[0].ends_with(":alice:audio"));
    // Nothing is missing any more: a second round offers nothing.
    assert!(server.renegotiate_room(&RoomId::new("nh", "room")).is_empty());
}

#[test]
fn joining_schedules_a_delayed_renegotiation() {
    let mut server = SfuServer::new();
    server.add_peer(new_peer(1, "alice", "room"), 1_000);
    server.media_added(0, s("0"), MediaKind::Audio);
    server.add_peer(new_peer(2, "bob", "room"), 1_000);
    assert!(server.run_due_renegotiations(1_000 + RENEGOTIATION_DELAY_MS - 1).is_empty());
    let o = offers(&server.run_due_renegotiations(1_000 + RENEGOTIATION_DELAY_MS));
    assert_eq!(o.len(), 1);
    assert_eq!(o[0].1, "bob");
    assert!(o[0].2[0].ends_with(":alice:audio"));
    assert!(server.run_due_renegotiations(5_000).is_empty());
}

#[test]
fn a_new_track_cancels_the_delayed_renegotiation() {
    let mut server = SfuServer::new();
    server.add_peer(new_peer(1, "alice", "room"), 1_000);
    server.media_added(0, s("0"), MediaKind::Audio);
    server.add_peer(new_peer(2, "bob", "room"), 1_000);
    let o = offers(&server.renegotiate_rooms(&vec![RoomId::new("nh", "room")]));
    assert_eq!(o.len(), 1);
    assert!(server.run_due_renegotiations(5_000).is_empty());
}

#[test]
fn frames_go_to_the_other_peers_of_the_room() {
    let mut server = SfuServer::new();
    let alice = new_peer(1, "alice", "room");
    let mut bob = new_peer(2, "bob", "room");
    bob.add_outgoing(ParticipantId::new(1), MediaKind::Audio, s("4"));
    bob.add_track_out(s("4"), ParticipantId::new(1), s("0"));
    let mut carol = new_peer(3, "carol", "other");
    carol.add_outgoing(ParticipantId::new(1), MediaKind::Audio, s("7"));
    server.add_peer(alice, 0);
    server.add_peer(bob, 0);
    server.add_peer(carol, 0);
    let t = server.forward_targets(ParticipantId::new(1), &s("0"), true, false, &None);
    assert_eq!(t, vec![(ParticipantId::new(2), s("4"))]);
    // Bob has no track from alice's video and nothing from himself.
    assert!(server.forward_targets(ParticipantId::new(1), &s("1"), false, true, &None).is_empty());
    assert!(server.forward_targets(ParticipantId::new(2), &s("0"), true, false, &None).is_empty());
    assert!(server.forward_targets(ParticipantId::new(8), &s("0"), true, false, &None).is_empty());
}

#[test]
fn quality_preference_filters_simulcast_layers() {
    let mut server = SfuServer::new();
    let alice = new_peer(1, "alice", "room");
    let mut bob = new_peer(2, "bob", "room");
    bob.add_outgoing(ParticipantId::new(1), MediaKind::Video, s("5"));
    server.add_peer(alice, 0);
    server.add_peer(bob, 0);
    let to_bob = |server: &SfuServer, rid: &str| {
        !server.forward_targets(ParticipantId::new(1), &s("1"), false, true, &Some(s(rid))).is_empty()
    };
    assert!(to_bob(&server, "high"));
    server.set_quality_preference(ParticipantId::new(2), s("low"));
    assert!(!to_bob(&server, "high"));
    assert!(!to_bob(&server, "f"));
    assert!(to_bob(&server, "low"));
    assert!(to_bob(&server, "q"));
    server.set_quality_preference(ParticipantId::new(2), s("medium"));
    assert!(!to_bob(&server, "high"));
    assert!(!to_bob(&server, "f"));
    assert!(to_bob(&server, "h"));
    assert!(to_bob(&server, "low"));
    server.set_quality_preference(ParticipantId::new(2), s("auto"));
    assert!(to_bob(&server, "f"));
    // Without a layer the preference does not apply.
    server.set_quality_preference(ParticipantId::new(2), s("low"));
    assert!(!server.forward_targets(ParticipantId::new(1), &s("1"), false, true, &None).is_empty());
}

#[test]
fn pipes_do_not_echo_to_the_same_remote_node() {
    let mut server = SfuServer::new();
    let p1 = pipe_peer(1, "did:remote");
    let mut p2 = pipe_peer(2, "did:remote");
    p2.add_outgoing(ParticipantId::new(1), MediaKind::Audio, s("3"));
    let mut p3 = pipe_peer(3, "did:other");
    p3.add_outgoing(ParticipantId::new(1), MediaKind::Audio, s("6"));
    server.add_peer(p1, 0);
    server.add_peer(p2, 0);
    server.add_peer(p3, 0);
    let t = server.forward_targets(ParticipantId::new(1), &s("0"), true, false, &None);
    assert_eq!(t, vec![(ParticipantId::new(3), s("6"))]);
}

#[test]
fn keyframe_requests_go_to_the_source() {
    let mut server = SfuServer::new();
    let alice = new_peer(1, "alice", "room");
    let mut bob = new_peer(2, "bob", "room");
    bob.add_track_out(s("4"), ParticipantId::new(1), s("1"));
    server.add_peer(alice, 0);
    server.add_peer(bob, 0);
    assert_eq!(server.keyframe_source(ParticipantId::new(2), &s("4")), Some((ParticipantId::new(1), s("1"))));
    assert_eq!(server.keyframe_source(ParticipantId::new(2), &s("5")), None);
    assert_eq!(server.keyframe_source(ParticipantId::new(7), &s("4")), None);
}

#[test]
fn departure_drops_tracks_from_the_departed() {
    let mut server = SfuServer::new();
    server.add_peer(new_peer(1, "alice", "room"), 0);
    server.add_peer(new_peer(2, "bob", "room"), 0);
    server.media_added(0, s("0"), MediaKind::Audio);
    server.media_added(1, s("0"), MediaKind::Audio);
    server.renegotiate_room(&RoomId::new("nh", "room"));
    assert_eq!(server.forward_targets(ParticipantId::new(1), &s("0"), true, false, &None).len(), 1);
    let actions = server.remove_peer(ParticipantId::new(1), 100);
    let o = offers(&actions);
    assert_eq!(o.len(), 1);
    assert_eq!(o[0].1, "bob");
    assert!(o[0].2.is_empty());
    assert!(server.forward_targets(ParticipantId::new(2), &s("0"), true, false, &None).is_empty());
}

#[test]
fn commands_answer_as_expected() {
    let mut server = SfuServer::new();
    let (actions, reply) = server.handle_command(SfuCommand::AddPeer(new_peer(1, "alice", "room")), 0);
    assert_eq!(participant_events(&actions).len(), 1);
    assert!(matches!(reply, CommandReply::Done));
    let (_, reply) = server.handle_command(
        SfuCommand::SetQualityPreference { participant_id: ParticipantId::new(1), preference: s("low") },
        0,
    );
    assert!(matches!(reply, CommandReply::Done));
    let mut other = Rtc::new(Instant::now());
    let mut api = other.sdp_api();
    api.add_media(str0m::media::MediaKind::Audio, Direction::SendRecv, None, None, None);
    let (offer, _) = api.apply().unwrap();
    let (_, reply) = server.handle_command(
        SfuCommand::RenegotiatePeer { agent_did: s("bob"), room_id: RoomId::new("nh", "room"), sdp_offer: offer },
        0,
    );
    match reply {
        CommandReply::Answer(Err(m)) => assert_eq!(m, "No existing peer for DID bob in room nh:room"),
        _ => panic!("expected a refused renegotiation"),
    }
    let (_, reply) = server.handle_command(SfuCommand::Shutdown, 0);
    assert!(matches!(reply, CommandReply::Shutdown));
}

#[test]
fn renegotiating_a_peer_answers_its_offer() {
    let mut server = SfuServer::new();
    server.add_peer(new_peer(1, "alice", "room"), 0);
    let mut other = Rtc::new(Instant::now());
    let mut api = other.sdp_api();
    api.add_media(str0m::media::MediaKind::Audio, Direction::SendRecv, None, None, None);
    let (offer, _) = api.apply().unwrap();
    let r = server.renegotiate_peer(&s("alice"), &RoomId::new("nh", "room"), offer);
    let json = r.unwrap();
    assert!(serde_json::from_str::<str0m::change::SdpAnswer>(&json).is_ok());
}

#[test]
fn answers_need_a_pending_offer() {
    let mut server = SfuServer::new();
    server.add_peer(new_peer(1, "alice", "room"), 0);
    let mut caller = Rtc::new(Instant::now());
    let mut api = caller.sdp_api();
    api.add_media(str0m::media::MediaKind::Audio, Direction::SendRecv, None, None, None);
    let (offer, _) = api.apply().unwrap();
    let mut callee = Rtc::new(Instant::now());
    let answer = callee.sdp_api().accept_offer(offer).unwrap();
    let r = server.answer_server_offer(&s("alice"), &RoomId::new("nh", "room"), answer);
    assert_eq!(r, Err(s("No pending server offer")));
}

#[test]
fn offers_are_accepted_on_a_new_connection() {
    let mut caller = Rtc::new(Instant::now());
    let mut api = caller.sdp_api();
    api.add_media(str0m::media::MediaKind::Audio, Direction::SendRecv, None, None, None);
    let (offer, _) = api.apply().unwrap();
    let r = SfuServer::create_rtc_for_offer(offer, Ok(Connection::new(Instant::now())));
    let (_, json) = r.ok().unwrap();
    assert!(serde_json::from_str::<str0m::change::SdpAnswer>(&json).is_ok());
}

#[test]
fn offers_need_a_connection() {
    let mut caller = Rtc::new(Instant::now());
    let mut api = caller.sdp_api();
    api.add_media(str0m::media::MediaKind::Audio, Direction::SendRecv, None, None, None);
    let (offer, _) = api.apply().unwrap();
    let r = SfuServer::create_rtc_for_offer(offer, Err(s("Failed to create host candidate: bad")));
    assert_eq!(r.err(), Some(s("Failed to create host candidate: bad")));
}

#[test]
fn keyframe_requests_are_routed() {
    let mut server = SfuServer::new();
    let alice = new_peer(1, "alice", "room");
    let mut bob = new_peer(2, "bob", "room");
    bob.add_track_out(s("4"), ParticipantId::new(1), s("1"));
    server.add_peer(alice, 0);
    server.add_peer(bob, 0);
    assert_eq!(server.route_keyframe_request(ParticipantId::new(2), &s("4")), Some((ParticipantId::new(1), s("1"))));
    assert_eq!(server.route_keyframe_request(ParticipantId::new(1), &s("4")), None);
}

#[test]
fn closed_connections_are_cleaned_up() {
    let mut server = SfuServer::new();
    server.add_peer(new_peer(1, "alice", "room"), 0);
    server.add_peer(new_peer(2, "bob", "room"), 0);
    server.ice_state_changed(0, true);
    let actions = server.cleanup_disconnected(10);
    assert_eq!(participant_events(&actions), vec![(s("nh:room"), s("alice"), s("left"))]);
    assert_eq!(server.peer_count(), 1);
    assert_eq!(server.peer_id(0), ParticipantId::new(2));
    assert!(server.cleanup_disconnected(20).is_empty());
}

#[test]
fn closed_connections_are_listed_in_order() {
    let mut server = SfuServer::new();
    server.add_peer(new_peer(1, "alice", "room"), 0);
    server.add_peer(new_peer(2, "bob", "room"), 0);
    server.add_peer(new_peer(3, "carol", "room"), 0);
    assert!(server.disconnected_peers().is_empty());
    server.ice_state_changed(2, true);
    server.ice_state_changed(1, false);
    server.ice_state_changed(0, true);
    assert_eq!(server.disconnected_peers(), vec![ParticipantId::new(1), ParticipantId::new(3)]);
}

#[test]
fn repeated_track_keys_make_a_peer_ill_formed() {
    let fresh = new_peer(1, "alice", "room");
    assert!(fresh.is_well_formed());
    let mut twice_in = new_peer(2, "bob", "room");
    twice_in.tracks_in.push(TrackIn { mid: s("0"), kind: MediaKind::Audio });
    assert!(twice_in.is_well_formed());
    twice_in.tracks_in.push(TrackIn { mid: s("0"), kind: MediaKind::Video });
    assert!(!twice_in.is_well_formed());
    let mut twice_out = new_peer(3, "carol", "room");
    twice_out.outgoing_tracks.push(OutgoingTrack { source: ParticipantId::new(1), kind: MediaKind::Audio, mid: s("4") });
    twice_out.outgoing_tracks.push(OutgoingTrack { source: ParticipantId::new(1), kind: MediaKind::Video, mid: s("5") });
    assert!(twice_out.is_well_formed());
    twice_out.outgoing_tracks.push(OutgoingTrack { source: ParticipantId::new(1), kind: MediaKind::Audio, mid: s("6") });
    assert!(!twice_out.is_well_formed());
}

#[test]
fn a_closed_connection_is_dropped_by_the_next_cleanup() {
    let mut server = SfuServer::new();
    server.add_peer(new_peer(1, "alice", "room"), 0);
    server.add_peer(new_peer(2, "bob", "room"), 0);
    server.ice_state_changed(0, true);
    let actions = server.cleanup_disconnected(50);
    assert_eq!(participant_events(&actions), vec![(s("nh:room"), s("alice"), s("left"))]);
    assert_eq!(server.peer_count(), 1);
    assert_eq!(server.peer_id(0), ParticipantId::new(2));
    assert!(server.cleanup_disconnected(60).is_empty());
}
