use sfu::cascade::{CascadeManager, CascadeSignal};
use sfu::ids::RoomId;
use std::time::Instant;
use str0m::media::{Direction, MediaKind};
use sfu::rtc::Connection;
use str0m::Rtc;

fn manager(did: &str, max: u32) -> CascadeManager {
    CascadeManager::new(did.to_string(), "127.0.0.1:5000".to_string(), max)
}

fn loads(m: &CascadeManager, room: &str) -> Vec<(String, u32, u32)> {
    m.nodes_for_room(&room.to_string())
        .iter()
        .map(|n| (n.did.clone(), n.participant_count, n.capacity_hint))
        .collect()
}

/// An SDP offer, as JSON, from a connection that wants to send audio.
fn audio_offer_json() -> String {
    let mut rtc = Rtc::new(Instant::now());
    let mut api = rtc.sdp_api();
    api.add_media(MediaKind::Audio, Direction::SendOnly, None, None, None);
    let (offer, _pending) = api.apply().unwrap();
    serde_json::to_string(&offer).unwrap()
}

#[test]
fn announce_carries_our_load_and_capacity() {
    let m = manager("did:local", 50);
    match m.announce_sfu_node(&RoomId::new("nh", "room"), 7) {
        CascadeSignal::Announce { did, room_id, participant_count, capacity_hint } => {
            assert_eq!(did, "did:local");
            assert_eq!(room_id, "nh:room");
            assert_eq!(participant_count, 7);
            assert_eq!(capacity_hint, 50);
        }
        _ => panic!("expected an announce"),
    }
    assert_eq!(m.local_addr(), "127.0.0.1:5000");
}

#[test]
fn announces_are_recorded_per_room() {
    let mut m = manager("did:local", 50);
    assert!(!m.is_cascaded(&"nh:room".to_string()));
    m.handle_sfu_announce("did:a".to_string(), "nh:room".to_string(), 3, 10);
    m.handle_sfu_announce("did:b".to_string(), "nh:room".to_string(), 5, 10);
    m.handle_sfu_announce("did:a".to_string(), "nh:room".to_string(), 4, 12);
    m.handle_sfu_announce("did:c".to_string(), "nh:other".to_string(), 1, 10);
    assert!(m.is_cascaded(&"nh:room".to_string()));
    assert_eq!(
        loads(&m, "nh:room"),
        vec![("did:a".to_string(), 4, 12), ("did:b".to_string(), 5, 10)]
    );
    assert_eq!(loads(&m, "nh:other"), vec![("did:c".to_string(), 1, 10)]);
    assert!(loads(&m, "nh:none").is_empty());
}

#[test]
fn own_announces_are_ignored() {
    let mut m = manager("did:local", 50);
    m.handle_sfu_announce("did:local".to_string(), "nh:room".to_string(), 3, 10);
    assert!(!m.is_cascaded(&"nh:room".to_string()));
    assert!(loads(&m, "nh:room").is_empty());
}

#[test]
fn below_capacity_redirects_only_to_much_less_loaded_nodes() {
    let mut m = manager("did:local", 50);
    let room = "nh:room".to_string();
    assert!(m.pick_redirect_node(&room, 10).is_none());
    m.handle_sfu_announce("did:a".to_string(), room.clone(), 8, 50);
    // 8 + 2 < 10 does not hold
    assert!(m.pick_redirect_node(&room, 10).is_none());
    // 8 + 2 < 11 holds
    assert_eq!(m.pick_redirect_node(&room, 11).unwrap().did, "did:a");
}

#[test]
fn below_capacity_skips_full_nodes() {
    let mut m = manager("did:local", 50);
    let room = "nh:room".to_string();
    m.handle_sfu_announce("did:full".to_string(), room.clone(), 1, 1);
    m.handle_sfu_announce("did:free".to_string(), room.clone(), 3, 10);
    assert_eq!(m.pick_redirect_node(&room, 20).unwrap().did, "did:free");
}

#[test]
fn at_capacity_redirects_to_least_loaded_node_with_room() {
    let mut m = manager("did:local", 10);
    let room = "nh:room".to_string();
    m.handle_sfu_announce("did:a".to_string(), room.clone(), 9, 10);
    m.handle_sfu_announce("did:b".to_string(), room.clone(), 4, 4);
    m.handle_sfu_announce("did:c".to_string(), room.clone(), 6, 10);
    assert_eq!(m.pick_redirect_node(&room, 10).unwrap().did, "did:c");
    m.handle_sfu_announce("did:c".to_string(), room.clone(), 10, 10);
    assert_eq!(m.pick_redirect_node(&room, 12).unwrap().did, "did:a");
    m.handle_sfu_announce("did:a".to_string(), room.clone(), 10, 10);
    assert!(m.pick_redirect_node(&room, 12).is_none());
}

#[test]
fn equal_loads_redirect_to_the_first_announced() {
    let mut m = manager("did:local", 10);
    let room = "nh:room".to_string();
    m.handle_sfu_announce("did:a".to_string(), room.clone(), 2, 10);
    m.handle_sfu_announce("did:b".to_string(), room.clone(), 2, 10);
    assert_eq!(m.pick_redirect_node(&room, 10).unwrap().did, "did:a");
}

#[test]
fn removed_node_is_forgotten_everywhere() {
    let mut m = manager("did:local", 50);
    m.handle_sfu_announce("did:a".to_string(), "nh:r1".to_string(), 3, 10);
    m.handle_sfu_announce("did:b".to_string(), "nh:r1".to_string(), 3, 10);
    m.handle_sfu_announce("did:a".to_string(), "nh:r2".to_string(), 3, 10);
    m.remove_node("did:a");
    assert_eq!(loads(&m, "nh:r1"), vec![("did:b".to_string(), 3, 10)]);
    assert!(loads(&m, "nh:r2").is_empty());
    assert!(!m.is_cascaded(&"nh:r2".to_string()));
}

#[test]
fn pipe_needs_a_connection() {
    let mut m = manager("did:local", 50);
    let r = m.establish_pipe("did:a", &RoomId::new("nh", "room"), Err("Failed to add candidate: x".to_string()));
    assert_eq!(r.err(), Some("Failed to add candidate: x".to_string()));
    assert_eq!(m.pipe_count(), 0);
}

#[test]
fn empty_pipe_offer_is_refused() {
    let mut m = manager("did:local", 50);
    let r = m.establish_pipe("did:a", &RoomId::new("nh", "room"), Ok(Connection::new(Instant::now())));
    assert_eq!(r.err(), Some("Failed to create pipe offer: no changes to negotiate".to_string()));
    assert_eq!(m.pipe_count(), 0);
}

#[test]
fn invalid_pipe_offer_is_refused() {
    let mut m = manager("did:local", 50);
    let r = m.handle_pipe_offer("did:a", "nh:room", "not json", Ok(Connection::new(Instant::now())));
    let reason = serde_json::from_str::<str0m::change::SdpOffer>("not json").err().unwrap().to_string();
    assert_eq!(r.err(), Some(format!("Invalid pipe SDP offer: {}", reason)));
    assert_eq!(m.pipe_count(), 0);
}

#[test]
fn pipe_offer_is_answered_and_established() {
    let mut m = manager("did:local", 50);
    let r = m.handle_pipe_offer("did:a", "nh:room", &audio_offer_json(), Ok(Connection::new(Instant::now())));
    match r {
        Ok(CascadeSignal::PipeAnswer { from_did, to_did, room_id, sdp_answer }) => {
            assert_eq!(from_did, "did:local");
            assert_eq!(to_did, "did:a");
            assert_eq!(room_id, "nh:room");
            assert!(sdp_answer.len() > 0);
            assert!(serde_json::from_str::<str0m::change::SdpAnswer>(&sdp_answer).is_ok());
        }
        _ => panic!("expected a pipe answer"),
    }
    assert_eq!(m.pipe_count(), 1);
    let (room, did) = m.pipe_key(0);
    assert_eq!((room.as_str(), did.as_str()), ("nh:room", "did:a"));
    let pipe = m.pipes_mut(0);
    assert!(pipe.established);
    assert_eq!(pipe.room_id.neighbourhood_url, "nh");
    assert_eq!(pipe.room_id.room_name, "room");
    assert_eq!(m.forward_pipe_targets("nh:room", None), vec![0]);
    assert!(m.forward_pipe_targets("nh:room", Some("did:a")).is_empty());
    assert!(m.forward_pipe_targets("nh:other", None).is_empty());
}

#[test]
fn pipe_answer_needs_a_pipe() {
    let mut m = manager("did:local", 50);
    let r = m.handle_pipe_answer("did:a", "nh:room", "{}");
    assert_eq!(r, Err("No pending pipe transport for this node".to_string()));
}

#[test]
fn invalid_pipe_answer_is_refused() {
    let mut m = manager("did:local", 50);
    m.handle_pipe_offer("did:a", "nh:room", &audio_offer_json(), Ok(Connection::new(Instant::now()))).ok().unwrap();
    let r = m.handle_pipe_answer("did:a", "nh:room", "garbage");
    let reason = serde_json::from_str::<str0m::change::SdpAnswer>("garbage").err().unwrap().to_string();
    assert_eq!(r, Err(format!("Invalid pipe SDP answer: {}", reason)));
}

#[test]
fn removing_a_node_drops_its_pipes() {
    let mut m = manager("did:local", 50);
    m.handle_pipe_offer("did:a", "nh:room", &audio_offer_json(), Ok(Connection::new(Instant::now()))).ok().unwrap();
    m.handle_pipe_offer("did:b", "nh:room", &audio_offer_json(), Ok(Connection::new(Instant::now()))).ok().unwrap();
    assert_eq!(m.pipe_count(), 2);
    m.remove_node("did:a");
    assert_eq!(m.pipe_count(), 1);
    assert_eq!(m.pipe_key(0).1, "did:b");
}

#[test]
fn duplicate_pipe_is_refused() {
    let mut m = manager("did:local", 50);
    m.handle_pipe_offer("did:a", "nh:room", &audio_offer_json(), Ok(Connection::new(Instant::now()))).ok().unwrap();
    let r = m.establish_pipe("did:a", &RoomId::new("nh", "room"), Ok(Connection::new(Instant::now())));
    assert_eq!(r.err(), Some("Pipe transport already exists".to_string()));
}

#[test]
fn pipe_rooms_keep_neighbourhood_urls() {
    let mut m = manager("did:local", 50);
    let key = RoomId::new("neighbourhood://QmAbc", "lobby").to_string();
    m.handle_pipe_offer("did:a", &key, &audio_offer_json(), Ok(Connection::new(Instant::now()))).ok().unwrap();
    let pipe = m.pipes_mut(0);
    assert_eq!(pipe.room_id.neighbourhood_url, "neighbourhood://QmAbc");
    assert_eq!(pipe.room_id.room_name, "lobby");
}
