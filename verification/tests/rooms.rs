use sfu::graphql_types::{copy_strings, CallParticipantEvent, CallStreamEvent, RenegotiationOfferEvent};
use sfu::ids::{media_kind_label, MediaKind, ParticipantId, RoomId};
use sfu::peer::{SfuPeer, TrackIn};
use sfu::routing::{
    contains_string, departure_track_mappings, find_missing_receive_tracks, format_track_mapping, new_track_mappings,
    offer_track_mappings, record_new_tracks, TrackSource,
};
use sfu::server::SfuServerConfig;
use sfu::service::SfuService;
use std::time::Instant;
use sfu::rtc::Connection;

fn peer(id: u64, did: &str) -> SfuPeer {
    SfuPeer::new(
        ParticipantId::new(id),
        RoomId::new("nh", "room"),
        did.to_string(),
        Connection::new(Instant::now()),
        false,
        None,
    )
}

fn source(id: u64, did: &str, tracks: &[(&str, MediaKind)]) -> TrackSource {
    TrackSource {
        pid: ParticipantId::new(id),
        did: did.to_string(),
        tracks: tracks.iter().map(|(m, k)| TrackIn { mid: m.to_string(), kind: *k }).collect(),
    }
}

#[test]
fn room_text_form() {
    let room = RoomId::new("neighbourhood-42", "main");
    assert_eq!(room.to_string(), "neighbourhood-42:main");
}

#[test]
fn room_parse_splits_at_last_colon() {
    let r = RoomId::parse("nh:room");
    assert_eq!(r.neighbourhood_url, "nh");
    assert_eq!(r.room_name, "room");
    let r = RoomId::parse("neighbourhood://Qm123:lobby");
    assert_eq!(r.neighbourhood_url, "neighbourhood://Qm123");
    assert_eq!(r.room_name, "lobby");
    let r = RoomId::parse("a:b:c");
    assert_eq!(r.neighbourhood_url, "a:b");
    assert_eq!(r.room_name, "c");
}

#[test]
fn neighbourhood_urls_round_trip() {
    let room = RoomId::new("neighbourhood://QmXyz", "main");
    let back = RoomId::parse(&room.to_string());
    assert!(back.same_room(&room));
}

#[test]
fn room_parse_without_colon_is_default_room() {
    let r = RoomId::parse("nh");
    assert_eq!(r.neighbourhood_url, "nh");
    assert_eq!(r.room_name, "default");
    let r = RoomId::parse("");
    assert_eq!(r.neighbourhood_url, "");
    assert_eq!(r.room_name, "default");
}

#[test]
fn room_text_form_round_trips() {
    let room = RoomId::new("nh-url", "room one");
    let back = RoomId::parse(&room.to_string());
    assert!(back.same_room(&room));
    assert!(!back.same_room(&RoomId::new("nh-url", "room two")));
}

#[test]
fn kind_labels() {
    assert_eq!(media_kind_label(MediaKind::Audio), "audio");
    assert_eq!(media_kind_label(MediaKind::Video), "video");
}

#[test]
fn track_mapping_format() {
    let m = format_track_mapping(&"3".to_string(), &"did:key:alice".to_string(), MediaKind::Video);
    assert_eq!(m, "3:did:key:alice:video");
    let m = format_track_mapping(&"a1".to_string(), &"bob".to_string(), MediaKind::Audio);
    assert_eq!(m, "a1:bob:audio");
}

#[test]
fn missing_tracks_skip_self_and_received_kinds() {
    let mut p = peer(1, "alice");
    p.add_outgoing(ParticipantId::new(2), MediaKind::Audio, "5".to_string());
    let sources = vec![
        source(1, "alice", &[("0", MediaKind::Audio)]),
        source(2, "bob", &[("0", MediaKind::Audio), ("1", MediaKind::Video)]),
        source(3, "carol", &[("0", MediaKind::Audio)]),
    ];
    let missing = find_missing_receive_tracks(&p, &sources);
    let got: Vec<(u64, String, MediaKind, String)> =
        missing.iter().map(|m| (m.source.value, m.source_mid.clone(), m.kind, m.source_did.clone())).collect();
    assert_eq!(
        got,
        vec![
            (2, "1".to_string(), MediaKind::Video, "bob".to_string()),
            (3, "0".to_string(), MediaKind::Audio, "carol".to_string()),
        ]
    );
}

#[test]
fn recorded_tracks_are_no_longer_missing() {
    let mut p = peer(1, "alice");
    let sources = vec![source(2, "bob", &[("0", MediaKind::Audio), ("1", MediaKind::Video)])];
    let missing = find_missing_receive_tracks(&p, &sources);
    assert_eq!(missing.len(), 2);
    let mids = vec!["7".to_string(), "8".to_string()];
    record_new_tracks(&mut p, &missing, &mids);
    assert!(find_missing_receive_tracks(&p, &sources).is_empty());
    assert_eq!(p.outgoing_mid(ParticipantId::new(2), MediaKind::Video), Some("8".to_string()));
    assert_eq!(p.track_source(&"7".to_string()), Some((ParticipantId::new(2), "0".to_string())));
    let mappings = new_track_mappings(&missing, &mids);
    assert_eq!(mappings, vec!["7:bob:audio".to_string(), "8:bob:video".to_string()]);
}

#[test]
fn offer_mappings_add_previous_tracks_once() {
    let mut p = peer(1, "alice");
    p.add_outgoing(ParticipantId::new(2), MediaKind::Audio, "4".to_string());
    p.add_track_out("4".to_string(), ParticipantId::new(2), "0".to_string());
    p.add_outgoing(ParticipantId::new(3), MediaKind::Video, "5".to_string());
    p.add_track_out("5".to_string(), ParticipantId::new(3), "1".to_string());
    let sources = vec![source(2, "bob", &[("0", MediaKind::Audio)]), source(3, "carol", &[("1", MediaKind::Video)])];
    let all = offer_track_mappings(&p, &sources, vec!["5:carol:video".to_string()]);
    assert_eq!(all, vec!["5:carol:video".to_string(), "4:bob:audio".to_string()]);
}

#[test]
fn departure_mappings_need_a_known_did() {
    let mut p = peer(1, "alice");
    p.add_outgoing(ParticipantId::new(2), MediaKind::Audio, "4".to_string());
    p.add_track_out("4".to_string(), ParticipantId::new(2), "0".to_string());
    p.add_outgoing(ParticipantId::new(3), MediaKind::Video, "5".to_string());
    p.add_track_out("5".to_string(), ParticipantId::new(3), "1".to_string());
    let dids = vec![(ParticipantId::new(3), "carol".to_string())];
    assert_eq!(departure_track_mappings(&p, &dids), vec!["5:carol:video".to_string()]);
}

#[test]
fn forgetting_a_source_drops_its_tracks() {
    let mut p = peer(1, "alice");
    p.add_outgoing(ParticipantId::new(2), MediaKind::Audio, "4".to_string());
    p.add_track_out("4".to_string(), ParticipantId::new(2), "0".to_string());
    p.add_outgoing(ParticipantId::new(3), MediaKind::Audio, "5".to_string());
    p.add_track_out("5".to_string(), ParticipantId::new(3), "0".to_string());
    assert_eq!(p.mids_from(ParticipantId::new(2)), vec!["4".to_string()]);
    p.forget_source(ParticipantId::new(2));
    assert!(p.mids_from(ParticipantId::new(2)).is_empty());
    assert!(!p.has_outgoing(ParticipantId::new(2), MediaKind::Audio));
    assert!(p.has_outgoing(ParticipantId::new(3), MediaKind::Audio));
}

#[test]
fn target_mid_falls_back_to_kind() {
    let mut p = peer(1, "alice");
    p.add_outgoing(ParticipantId::new(2), MediaKind::Audio, "4".to_string());
    p.add_track_out("4".to_string(), ParticipantId::new(2), "0".to_string());
    p.add_outgoing(ParticipantId::new(2), MediaKind::Video, "6".to_string());
    assert_eq!(p.target_mid(ParticipantId::new(2), &"0".to_string(), true), Some("4".to_string()));
    assert_eq!(p.target_mid(ParticipantId::new(2), &"9".to_string(), true), Some("4".to_string()));
    assert_eq!(p.target_mid(ParticipantId::new(2), &"9".to_string(), false), Some("6".to_string()));
    assert_eq!(p.target_mid(ParticipantId::new(3), &"0".to_string(), true), None);
}

#[test]
fn list_membership() {
    let list = vec!["a".to_string(), "b".to_string()];
    assert!(contains_string(&list, &"b".to_string()));
    assert!(!contains_string(&list, &"c".to_string()));
    assert_eq!(copy_strings(&list), list);
}

#[test]
fn participant_events_filter_by_room() {
    let e = CallParticipantEvent {
        room_id: "nh:room".to_string(),
        agent_did: "alice".to_string(),
        event_type: "joined".to_string(),
    };
    assert_eq!(e.get_filter(), Some("nh:room".to_string()));
    let v = e.get_value();
    assert_eq!((v.room_id, v.agent_did, v.event_type), ("nh:room".to_string(), "alice".to_string(), "joined".to_string()));
}

#[test]
fn stream_events_filter_by_room() {
    let e = CallStreamEvent {
        room_id: "nh:room".to_string(),
        agent_did: "alice".to_string(),
        track_kind: "audio".to_string(),
        event_type: "added".to_string(),
    };
    assert_eq!(e.get_filter(), Some("nh:room".to_string()));
    assert_eq!(e.get_value().track_kind, "audio");
}

#[test]
fn offers_filter_by_did() {
    let e = RenegotiationOfferEvent {
        room_id: "nh:room".to_string(),
        agent_did: "alice".to_string(),
        sdp_offer: "{}".to_string(),
        track_mapping: vec!["1:bob:audio".to_string()],
    };
    assert_eq!(e.get_filter(), Some("alice".to_string()));
    assert_eq!(e.get_value().track_mapping, vec!["1:bob:audio".to_string()]);
}

#[test]
fn default_server_config() {
    let c = SfuServerConfig::default();
    assert_eq!(c.bind_addr, "0.0.0.0:0");
    assert_eq!(c.stun_servers, vec!["stun:stun.l.google.com:19302".to_string()]);
    assert!(c.turn_servers.is_empty());
}

#[test]
fn no_sfu_service_here() {
    assert!(!SfuService::is_available());
}
