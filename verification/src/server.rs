//! The SFU server: the decisions of its event loop.
//!
//! The server owns every connected peer (with its connection), the media relay,
//! the quality preferences and the renegotiations that wait for their time.
//! The event loop around it reads the socket and the command channel,
//! drives time, publishes the actions the server returns, and hands the
//! server each command and each event of a peer's connection.
use vstd::prelude::*;
use std::collections::HashMap;
use str0m::change::{SdpAnswer, SdpOffer};
use str0m::media::MediaData;
use crate::assoc::{
    has_key, key_pos, keys_distinct, lemma_key_pos_unique, lemma_map_insert, lemma_map_remove, lookup, map_insert, map_remove,
};
use crate::graphql_types::{strings_of, CallParticipantEvent, CallStreamEvent, RenegotiationOfferEvent};
use crate::ids::{kind_label, media_kind_label, room_key, MediaKind, ParticipantId, RoomId};
use crate::peer::{keyframe_sources, mids_from, outgoing_without, out_without, peer_wf, target_mid, PeerView, SfuPeer};
use crate::routing::{
    copy_tracks, find_missing_receive_tracks, merged_mappings, missing_tracks, missing_view, new_mappings,
    new_track_mappings, offer_track_mappings, record_new_tracks, sources_view, with_new_tracks,
    lemma_with_new_tracks_fields, lemma_new_tracks_complete, MissingTrack, TrackSource, departure_mappings, departure_track_mappings, dids_view,
};
use crate::rtc::{
    Connection,
    rtc_disconnect, rtc_is_alive, rtc_request_keyframe, rtc_sdp_api, rtc_write, sdp_accept_answer, sdp_accept_offer,
    sdp_add_send_only_media, sdp_answer_to_json, sdp_apply, sdp_merge, sdp_offer_to_json, sdp_set_inactive, ConnectionEvent,
};
use crate::relay::{relay_after_audio, state_of, MediaRelay};

verus! {

broadcast use vstd::std_specs::hash::group_hash_axioms;

/// How long after a peer joins its room is renegotiated, unless a new
/// track renegotiates it first.
pub const RENEGOTIATION_DELAY_MS: u64 = 500;

/// Something the event loop must publish.
pub enum SfuAction {
    PublishParticipant(CallParticipantEvent),
    PublishStream(CallStreamEvent),
    PublishOffer(RenegotiationOfferEvent),
}

/// What an action carries.
pub enum ActionView {
    Participant { room: Seq<char>, did: Seq<char>, event: Seq<char> },
    Stream { room: Seq<char>, did: Seq<char>, kind: Seq<char>, event: Seq<char> },
    Offer { room: Seq<char>, did: Seq<char>, sdp: Seq<char>, mappings: Seq<Seq<char>> },
}

pub open spec fn action_view(a: SfuAction) -> ActionView {
    match a {
        SfuAction::PublishParticipant(e) => ActionView::Participant {
            room: e.room_id@,
            did: e.agent_did@,
            event: e.event_type@,
        },
        SfuAction::PublishStream(e) => ActionView::Stream {
            room: e.room_id@,
            did: e.agent_did@,
            kind: e.track_kind@,
            event: e.event_type@,
        },
        SfuAction::PublishOffer(e) => ActionView::Offer {
            room: e.room_id@,
            did: e.agent_did@,
            sdp: e.sdp_offer@,
            mappings: strings_of(e.track_mapping@),
        },
    }
}

pub open spec fn opt_action_view(a: Option<SfuAction>) -> Option<ActionView> {
    match a {
        Some(a) => Some(action_view(a)),
        None => None,
    }
}

pub open spec fn actions_view(s: Seq<SfuAction>) -> Seq<ActionView> {
    s.map_values(|a: SfuAction| action_view(a))
}

pub open spec fn joined_text() -> Seq<char> {
    seq!['j', 'o', 'i', 'n', 'e', 'd']
}

pub open spec fn left_text() -> Seq<char> {
    seq!['l', 'e', 'f', 't']
}

pub open spec fn added_text() -> Seq<char> {
    seq!['a', 'd', 'd', 'e', 'd']
}

pub open spec fn removed_text() -> Seq<char> {
    seq!['r', 'e', 'm', 'o', 'v', 'e', 'd']
}

/// The "removed" stream events of a leaving peer, one per track it sent.
pub open spec fn stream_removed_events(p: PeerView) -> Seq<ActionView> {
    Seq::new(
        p.tracks_in.len(),
        |i: int|
            ActionView::Stream {
                room: room_key(p.room),
                did: p.agent_did,
                kind: kind_label(p.tracks_in[i].1),
                event: removed_text(),
            },
    )
}

/// What is published when a peer leaves: for a participant (not a pipe
/// transport) its "left" event and a "removed" event per track it sent.
pub open spec fn leave_events(p: PeerView) -> Seq<ActionView> {
    if p.is_pipe_transport {
        seq![]
    } else {
        seq![ActionView::Participant { room: room_key(p.room), did: p.agent_did, event: left_text() }]
            + stream_removed_events(p)
    }
}

pub open spec fn id_pairs(ps: Seq<PeerView>) -> Seq<(ParticipantId, PeerView)> {
    ps.map_values(|p: PeerView| (p.id, p))
}

/// One peer per participant id, and each peer's tables have distinct keys.
pub open spec fn peers_wf(ps: Seq<PeerView>) -> bool {
    &&& keys_distinct(id_pairs(ps))
    &&& forall|i: int| 0 <= i < ps.len() ==> peer_wf(#[trigger] ps[i])
}

/// `i` is the first peer with DID `did` in room `room`.
pub open spec fn is_first_by_did(ps: Seq<PeerView>, did: Seq<char>, room: (Seq<char>, Seq<char>), i: int) -> bool {
    &&& 0 <= i < ps.len()
    &&& ps[i].agent_did == did && ps[i].room == room
    &&& forall|j: int| 0 <= j < i ==> !(ps[j].agent_did == did && ps[j].room == room)
}

pub open spec fn pending_view(s: Seq<(RoomId, u64)>) -> Seq<((Seq<char>, Seq<char>), u64)> {
    s.map_values(|e: (RoomId, u64)| (e.0@, e.1))
}

/// The sources of a room: each peer of the room, in order, with its DID
/// and the tracks it sends.
pub open spec fn room_sources(ps: Seq<PeerView>, room: (Seq<char>, Seq<char>)) -> Seq<
    (ParticipantId, Seq<char>, Seq<(Seq<char>, MediaKind)>),
>
    decreases ps.len(),
{
    if ps.len() == 0 {
        seq![]
    } else {
        let r = room_sources(ps.drop_last(), room);
        let p = ps.last();
        if p.room == room {
            r.push((p.id, p.agent_did, p.tracks_in))
        } else {
            r
        }
    }
}

/// A peer's routing state: everything but whether an offer is pending.
pub open spec fn routing_of(p: PeerView) -> PeerView {
    PeerView { has_pending_offer: false, ..p }
}

/// `new` is `old` after sending it, on fresh media ids `mids`, each of the
/// `missing` tracks; where an action came of it, it is an offer to the peer
/// whose mappings are those of the new tracks, followed, where
/// `merge_existing`, by those of every other track the peer receives from
/// `sources`.
pub open spec fn offered_missing_tracks(
    old: PeerView,
    new: PeerView,
    missing: Seq<(ParticipantId, Seq<char>, MediaKind, Seq<char>)>,
    mids: Seq<Seq<char>>,
    sources: Seq<(ParticipantId, Seq<char>, Seq<(Seq<char>, MediaKind)>)>,
    merge_existing: bool,
    action: Option<ActionView>,
) -> bool {
    let q = with_new_tracks(old, missing, mids);
    let maps = if merge_existing {
        merged_mappings(new_mappings(missing, mids), q.tracks_out, q.outgoing, sources)
    } else {
        new_mappings(missing, mids)
    };
    &&& mids.len() == missing.len()
    &&& routing_of(new) == routing_of(q)
    &&& action matches Some(a) ==> (a matches ActionView::Offer { room, did, mappings, .. } && room == room_key(
        old.room,
    ) && did == old.agent_did && mappings == maps)
    &&& action is Some ==> new.has_pending_offer
}

/// `new` is `old` after being sent every track of `sources` it lacked,
/// on some fresh media ids; a peer that lacked nothing is unchanged.
pub open spec fn renegotiated(
    old: PeerView,
    new: PeerView,
    sources: Seq<(ParticipantId, Seq<char>, Seq<(Seq<char>, MediaKind)>)>,
) -> bool {
    let missing = missing_tracks(old.id, old.outgoing, sources);
    &&& new.id == old.id
    &&& new.room == old.room
    &&& new.agent_did == old.agent_did
    &&& new.tracks_in == old.tracks_in
    &&& new.is_pipe_transport == old.is_pipe_transport
    &&& new.pipe_remote_did == old.pipe_remote_did
    &&& missing.len() == 0 ==> new == old
    &&& missing.len() > 0 ==> exists|mids: Seq<Seq<char>>|
        mids.len() == missing.len() && routing_of(new) == routing_of(
            #[trigger] with_new_tracks(old, missing, mids),
        )
}

/// A renegotiated peer lacks no track of the room's sources: every track
/// that another participant of the room sends, it receives.
pub proof fn lemma_renegotiated_lacks_nothing(
    old: PeerView,
    new: PeerView,
    sources: Seq<(ParticipantId, Seq<char>, Seq<(Seq<char>, MediaKind)>)>,
)
    requires
        peer_wf(old),
        renegotiated(old, new, sources),
    ensures
        missing_tracks(new.id, new.outgoing, sources).len() == 0,
{
    let missing = missing_tracks(old.id, old.outgoing, sources);
    if missing.len() > 0 {
        let mids = choose|mids: Seq<Seq<char>>|
            mids.len() == missing.len() && routing_of(new) == routing_of(#[trigger] with_new_tracks(old, missing, mids));
        lemma_new_tracks_complete(old, sources, mids);
        let w = with_new_tracks(old, missing, mids);
        assert(routing_of(new).outgoing == routing_of(w).outgoing);
    }
}

/// Every action is an offer published in `room`.
pub open spec fn offers_in_room(actions: Seq<ActionView>, room: (Seq<char>, Seq<char>)) -> bool {
    forall|k: int|
        0 <= k < actions.len() ==> (#[trigger] actions[k] matches ActionView::Offer { room: r, .. } && r == room_key(
            room,
        ))
}

/// The peers of a room, in order, each with its DID.
pub open spec fn room_dids(ps: Seq<PeerView>, room: (Seq<char>, Seq<char>)) -> Seq<(ParticipantId, Seq<char>)>
    decreases ps.len(),
{
    if ps.len() == 0 {
        seq![]
    } else {
        let r = room_dids(ps.drop_last(), room);
        let p = ps.last();
        if p.room == room {
            r.push((p.id, p.agent_did))
        } else {
            r
        }
    }
}

/// Each id in the DIDs of a room is the id of a peer of the sequence.
pub proof fn lemma_room_dids(ps: Seq<PeerView>, room: (Seq<char>, Seq<char>))
    requires
        keys_distinct(id_pairs(ps)),
    ensures
        keys_distinct(room_dids(ps, room)),
        forall|k: int|
            0 <= k < room_dids(ps, room).len() ==> exists|j: int|
                0 <= j < ps.len() && ps[j].id == (#[trigger] room_dids(ps, room)[k]).0,
    decreases ps.len(),
{
    if ps.len() > 0 {
        let init = ps.drop_last();
        assert forall|a: int, b: int|
            0 <= a < id_pairs(init).len() && 0 <= b < id_pairs(init).len() && a != b implies id_pairs(init)[a].0
            != id_pairs(init)[b].0 by {
            assert(id_pairs(init)[a] == id_pairs(ps)[a]);
            assert(id_pairs(init)[b] == id_pairs(ps)[b]);
        }
        lemma_room_dids(init, room);
        let r = room_dids(init, room);
        let last = ps.len() - 1;
        assert forall|k: int| 0 <= k < r.len() implies exists|j: int|
            0 <= j < ps.len() && ps[j].id == (#[trigger] r[k]).0 by {
            let j = choose|j: int| 0 <= j < init.len() && init[j].id == r[k].0;
            assert(ps[j] == init[j]);
        }
        if ps.last().room == room {
            let rr = room_dids(ps, room);
            assert(rr == r.push((ps.last().id, ps.last().agent_did)));
            assert forall|k: int| 0 <= k < r.len() implies r[k].0 != ps.last().id by {
                let j = choose|j: int| 0 <= j < init.len() && init[j].id == r[k].0;
                assert(id_pairs(ps)[j].0 == ps[j].id);
                assert(id_pairs(ps)[last].0 == ps[last].id);
                assert(ps[j] == init[j]);
            }
            assert forall|a: int, b: int| 0 <= a < rr.len() && 0 <= b < rr.len() && a != b implies rr[a].0
                != rr[b].0 by {
                if a < r.len() && b < r.len() {
                    assert(rr[a] == r[a] && rr[b] == r[b]);
                } else if a < r.len() {
                    assert(rr[a] == r[a]);
                } else {
                    assert(rr[b] == r[b]);
                }
            }
            assert forall|k: int| 0 <= k < rr.len() implies exists|j: int|
                0 <= j < ps.len() && ps[j].id == (#[trigger] rr[k]).0 by {
                if k < r.len() {
                    assert(rr[k] == r[k]);
                    let j = choose|j: int| 0 <= j < ps.len() && ps[j].id == r[k].0;
                } else {
                    assert(ps[last].id == rr[k].0);
                }
            }
        }
    }
}

/// Whether the peer `q` must drop tracks from the departed `gone`: a
/// participant of the same room that receives some track of it.
pub open spec fn affected_by_departure(q: PeerView, gone: PeerView) -> bool {
    &&& q.room == gone.room
    &&& !q.is_pipe_transport
    &&& mids_from(q.tracks_out, gone.id).len() > 0
}

/// `q` without the tracks it received from `gone`.
pub open spec fn without_source(q: PeerView, gone: ParticipantId) -> PeerView {
    PeerView { tracks_out: out_without(q.tracks_out, gone), outgoing: outgoing_without(q.outgoing, gone), ..q }
}

/// The DIDs of a room read only ids, rooms and DIDs.
pub proof fn lemma_room_dids_routing(ps: Seq<PeerView>, qs: Seq<PeerView>, room: (Seq<char>, Seq<char>))
    requires
        ps.len() == qs.len(),
        forall|j: int| 0 <= j < ps.len() ==> routing_of(#[trigger] ps[j]) == routing_of(qs[j]),
    ensures
        room_dids(ps, room) == room_dids(qs, room),
    decreases ps.len(),
{
    if ps.len() > 0 {
        assert forall|j: int| 0 <= j < ps.len() - 1 implies routing_of(#[trigger] ps.drop_last()[j]) == routing_of(
            qs.drop_last()[j],
        ) by {
            assert(routing_of(ps[j]) == routing_of(qs[j]));
        }
        lemma_room_dids_routing(ps.drop_last(), qs.drop_last(), room);
        assert(routing_of(ps[ps.len() - 1]) == routing_of(qs[qs.len() - 1]));
    }
}

/// What leaving publishes first, then offers to the peers that lost tracks.
pub open spec fn departure_actions_ok(
    actions: Seq<ActionView>,
    gone: PeerView,
    rest: Seq<PeerView>,
    fin: Seq<PeerView>,
) -> bool {
    let leave = leave_events(gone);
    &&& leave.len() <= actions.len()
    &&& actions.take(leave.len() as int) == leave
    &&& forall|k: int|
        leave.len() <= k < actions.len() ==> exists|j: int|
            0 <= j < rest.len() && affected_by_departure(rest[j], gone) && (#[trigger] actions[k] matches ActionView::Offer {
                room,
                did,
                mappings,
                ..
            } && room == room_key(gone.room) && did == rest[j].agent_did && mappings == departure_mappings(
                fin[j].tracks_out,
                fin[j].outgoing,
                room_dids(fin, gone.room),
            ))
}

/// Whether a participant preferring `pref` skips a simulcast layer `rid`:
/// "low" takes only the low layer ("low" or "q"); "medium" skips the high
/// layer ("high" or "f"); any other preference takes every layer.
pub open spec fn quality_skips(pref: Seq<char>, rid: Seq<char>) -> bool {
    if pref == "low"@ {
        rid != "low"@ && rid != "q"@
    } else if pref == "medium"@ {
        rid == "high"@ || rid == "f"@
    } else {
        false
    }
}

/// A participant's quality preference; "high" where none was set.
pub open spec fn preference_of(prefs: Map<u64, Seq<char>>, pid: ParticipantId) -> Seq<char> {
    if prefs.contains_key(pid.value) {
        prefs[pid.value]
    } else {
        "high"@
    }
}

/// The media id on which a frame from `o` (media id `mid`, simulcast layer
/// `rid`) goes to the peer `t`, if it goes to `t` at all: not to `o`
/// itself, only within `o`'s room, not from a pipe back to a pipe of the
/// same remote node, not a video layer that `t`'s quality preference skips,
/// and only where `t` has a track for it.
pub open spec fn forward_mid(
    o: PeerView,
    t: PeerView,
    prefs: Map<u64, Seq<char>>,
    mid: Seq<char>,
    is_audio: bool,
    is_video: bool,
    rid: Option<Seq<char>>,
) -> Option<Seq<char>> {
    if t.id == o.id || t.room != o.room {
        None
    } else if o.is_pipe_transport && t.is_pipe_transport && t.pipe_remote_did == o.pipe_remote_did {
        None
    } else if is_video && rid is Some && quality_skips(preference_of(prefs, t.id), rid->0) {
        None
    } else {
        target_mid(t, o.id, mid, is_audio)
    }
}

/// Where a frame from `o` goes: for each peer in order that takes it, the
/// peer and the media id.
pub open spec fn forward_plan(
    ps: Seq<PeerView>,
    o: PeerView,
    prefs: Map<u64, Seq<char>>,
    mid: Seq<char>,
    is_audio: bool,
    is_video: bool,
    rid: Option<Seq<char>>,
) -> Seq<(ParticipantId, Seq<char>)>
    decreases ps.len(),
{
    if ps.len() == 0 {
        seq![]
    } else {
        let r = forward_plan(ps.drop_last(), o, prefs, mid, is_audio, is_video, rid);
        match forward_mid(o, ps.last(), prefs, mid, is_audio, is_video, rid) {
            Some(m) => r.push((ps.last().id, m)),
            None => r,
        }
    }
}

/// Where a keyframe request of `requester` for its track `mid` goes: the
/// source track of that track.
pub open spec fn keyframe_route(ps: Seq<PeerView>, requester: ParticipantId, mid: Seq<char>) -> Option<
    (ParticipantId, Seq<char>),
> {
    if has_key(id_pairs(ps), requester) {
        lookup(ps[key_pos(id_pairs(ps), requester)].tracks_out, mid)
    } else {
        None
    }
}

/// The pending renegotiations that are not due at `now`.
pub open spec fn not_due(s: Seq<((Seq<char>, Seq<char>), u64)>, now: u64) -> Seq<((Seq<char>, Seq<char>), u64)>
    decreases s.len(),
{
    if s.len() == 0 {
        s
    } else {
        let r = not_due(s.drop_last(), now);
        if now >= s.last().1 {
            r
        } else {
            r.push(s.last())
        }
    }
}

pub open spec fn opt_str_view(o: Option<String>) -> Option<Seq<char>> {
    match o {
        Some(s) => Some(s@),
        None => None,
    }
}

pub open spec fn targets_view(s: Seq<(ParticipantId, String)>) -> Seq<(ParticipantId, Seq<char>)> {
    s.map_values(|e: (ParticipantId, String)| (e.0, e.1@))
}

/// Configuration of the SFU server.
pub struct SfuServerConfig {
    /// Socket address text to bind the UDP socket to; "0.0.0.0:0" lets the
    /// system choose.
    pub bind_addr: String,
    /// STUN server URLs for ICE candidates.
    pub stun_servers: Vec<String>,
    /// TURN servers for ICE relay candidates.
    pub turn_servers: Vec<TurnServer>,
}

/// A TURN server and its credentials.
pub struct TurnServer {
    pub url: String,
    pub username: String,
    pub credential: String,
}

impl SfuServerConfig {
    /// The default configuration: any address, Google's public STUN
    /// server, no TURN server.
    pub fn default_config() -> (c: SfuServerConfig)
        ensures
            c.bind_addr@ == "0.0.0.0:0"@,
            c.stun_servers@.len() == 1,
            c.stun_servers@[0]@ == "stun:stun.l.google.com:19302"@,
            c.turn_servers@.len() == 0,
    {
        let mut stun: Vec<String> = Vec::new();
        stun.push(String::from_str("stun:stun.l.google.com:19302"));
        SfuServerConfig { bind_addr: String::from_str("0.0.0.0:0"), stun_servers: stun, turn_servers: Vec::new() }
    }
}

impl Default for SfuServerConfig {
    fn default() -> (c: SfuServerConfig)
        ensures
            c.bind_addr@ == "0.0.0.0:0"@,
            c.stun_servers@.len() == 1,
            c.stun_servers@[0]@ == "stun:stun.l.google.com:19302"@,
            c.turn_servers@.len() == 0,
    {
        SfuServerConfig::default_config()
    }
}

/// A command to the event loop from the GraphQL API or signalling layer.
pub enum SfuCommand {
    /// A peer completed its SDP negotiation and joins the event loop.
    AddPeer(SfuPeer),
    /// A peer leaves (explicit leave or disconnect).
    RemovePeer(ParticipantId),
    /// A participant's quality preference for the video it receives
    /// ("high", "medium", "low" or "auto").
    SetQualityPreference { participant_id: ParticipantId, preference: String },
    /// A client-initiated renegotiation of an existing peer.
    RenegotiatePeer { agent_did: String, room_id: RoomId, sdp_offer: SdpOffer },
    /// A client's answer to a server-initiated offer.
    AnswerServerOffer { agent_did: String, room_id: RoomId, sdp_answer: SdpAnswer },
    /// Shut the server down.
    Shutdown,
}

/// What a command answers.
pub enum CommandReply {
    /// Nothing to answer.
    Done,
    /// The SDP answer JSON of a renegotiation, or why there is none.
    Answer(Result<String, String>),
    /// Whether a server offer's answer was accepted.
    Accepted(Result<(), String>),
    /// The event loop must stop.
    Shutdown,
}

/// `after` is `before` once `peer` joined at `now`, publishing `actions`:
/// the peer is recorded under its id (replacing one with the same id), a
/// pipe transport is registered with the relay, a participant's "joined"
/// event is published, and its room is due for renegotiation
/// `RENEGOTIATION_DELAY_MS` after `now`.
pub open spec fn joined(before: SfuServer, after: SfuServer, peer: PeerView, now: u64, actions: Seq<ActionView>) -> bool {
    &&& id_pairs(after.peer_views()) == map_insert(id_pairs(before.peer_views()), peer.id, peer)
    &&& after.relay().voices() == before.relay().voices()
    &&& after.relay().speaker() == before.relay().speaker()
    &&& after.relay().pipe_ids() == if peer.is_pipe_transport {
        before.relay().pipe_ids().insert(peer.id.value)
    } else {
        before.relay().pipe_ids()
    }
    &&& after.preferences() == before.preferences()
    &&& after.pending() == map_insert(before.pending(), peer.room, (now + RENEGOTIATION_DELAY_MS) as u64)
    &&& actions == if peer.is_pipe_transport {
        Seq::<ActionView>::empty()
    } else {
        seq![ActionView::Participant { room: room_key(peer.room), did: peer.agent_did, event: joined_text() }]
    }
}

/// `after` is `before` once the peer `pid` left at `now`, publishing
/// `actions`; nothing changes where there is no such peer.
pub open spec fn departed(before: SfuServer, after: SfuServer, pid: ParticipantId, now: u64, actions: Seq<ActionView>) -> bool {
    &&& after.pending() == before.pending()
    &&& !has_key(id_pairs(before.peer_views()), pid) ==> {
        &&& after.peer_views() == before.peer_views()
        &&& after.relay() == before.relay()
        &&& after.preferences() == before.preferences()
        &&& actions.len() == 0
    }
    &&& has_key(id_pairs(before.peer_views()), pid) ==> {
        let i = key_pos(id_pairs(before.peer_views()), pid);
        let gone = before.peer_views()[i];
        let rest = before.peer_views().remove(i);
        let fin = after.peer_views();
        &&& fin.len() == rest.len()
        &&& forall|j: int|
            0 <= j < rest.len() ==> if affected_by_departure(rest[j], gone) {
                routing_of(#[trigger] fin[j]) == routing_of(without_source(rest[j], pid))
            } else {
                fin[j] == rest[j]
            }
        &&& crate::relay::relay_after_removal(before.relay(), after.relay(), pid, now)
        &&& after.preferences() == before.preferences().remove(pid.value)
        &&& departure_actions_ok(actions, gone, rest, fin)
    }
}

/// `after` is `before` with the quality preference of `pid` set to `pref`.
pub open spec fn preference_set(before: SfuServer, after: SfuServer, pid: ParticipantId, pref: Seq<char>) -> bool {
    &&& after.peer_views() == before.peer_views()
    &&& after.relay() == before.relay()
    &&& after.pending() == before.pending()
    &&& after.preferences() == before.preferences().insert(pid.value, pref)
    &&& after.logs() == before.logs()
}

/// What a client's renegotiation of the peer with DID `did` in `room`
/// answers (`r`); the server's state is unchanged.
pub open spec fn peer_renegotiated(
    before: SfuServer,
    after: SfuServer,
    did: Seq<char>,
    room: (Seq<char>, Seq<char>),
    r: Result<String, String>,
) -> bool {
    &&& after.peer_views() == before.peer_views()
    &&& after.relay() == before.relay()
    &&& after.preferences() == before.preferences()
    &&& after.pending() == before.pending()
    &&& (forall|j: int|
        0 <= j < before.peer_views().len() ==> !(before.peer_views()[j].agent_did == did && before.peer_views()[j].room
            == room)) ==> (r matches Err(m) && m@ == "No existing peer for DID "@ + did + " in room "@ + room_key(room))
    &&& (exists|j: int| is_first_by_did(before.peer_views(), did, room, j)) ==> (r matches Err(m) ==> (
    "Failed to accept renegotiation offer: "@.is_prefix_of(m@)))
    &&& after.logs() == before.logs()
}

/// What a client's answer to the server offer of the peer with DID `did`
/// in `room` gives (`r`), and how the server changes: once accepted, the
/// sources of the peer's video tracks are asked for keyframes, and
/// nothing else is handed to a connection.
pub open spec fn offer_answered(
    before: SfuServer,
    after: SfuServer,
    did: Seq<char>,
    room: (Seq<char>, Seq<char>),
    r: Result<(), String>,
) -> bool {
    &&& after.relay() == before.relay()
    &&& after.preferences() == before.preferences()
    &&& after.pending() == before.pending()
    &&& after.peer_views().len() == before.peer_views().len()
    &&& forall|j: int|
        0 <= j < before.peer_views().len() ==> routing_of(#[trigger] after.peer_views()[j]) == routing_of(
            before.peer_views()[j],
        )
    &&& (forall|j: int|
        0 <= j < before.peer_views().len() ==> !(before.peer_views()[j].agent_did == did && before.peer_views()[j].room
            == room)) ==> (r matches Err(m) && m@ == "No peer for DID "@ + did + " in room "@ + room_key(room)
        && after.peer_views() == before.peer_views())
    &&& forall|i: int|
        #[trigger] is_first_by_did(before.peer_views(), did, room, i) ==> {
            &&& !before.peer_views()[i].has_pending_offer ==> (r matches Err(m) && m@ == "No pending server offer"@
                && after.peer_views() == before.peer_views())
            &&& before.peer_views()[i].has_pending_offer ==> !after.peer_views()[i].has_pending_offer && forall|j: int|
                0 <= j < before.peer_views().len() && j != i ==> after.peer_views()[j] == before.peer_views()[j]
            &&& before.peer_views()[i].has_pending_offer ==> (r matches Err(m) ==> "Failed to accept answer: "@.is_prefix_of(
                m@,
            ))
            &&& r is Ok ==> exists|asked: Seq<bool>|
                asked.len() == keyframe_sources(before.peer_views()[i]).len() && after.logs()
                    == #[trigger] logs_after_keyframe_requests(
                    before.logs(),
                    after.peer_views(),
                    keyframe_sources(before.peer_views()[i]),
                    asked,
                )
        }
    &&& r is Err ==> after.logs() == before.logs()
}

/// The connection logs `logs` after keyframes were asked, in order, of the
/// sources `srcs` (a peer id and one of its media ids): each request goes
/// to the peer with that id among `ps`, if there is one, and is recorded
/// where `asked` says that its connection could write to that media.
pub open spec fn logs_after_keyframe_requests(
    logs: Seq<Seq<ConnectionEvent>>,
    ps: Seq<PeerView>,
    srcs: Seq<(ParticipantId, Seq<char>)>,
    asked: Seq<bool>,
) -> Seq<Seq<ConnectionEvent>>
    decreases srcs.len(),
{
    if srcs.len() == 0 || asked.len() == 0 {
        logs
    } else {
        let prev = logs_after_keyframe_requests(logs, ps, srcs.drop_last(), asked.drop_last());
        let src = srcs.last();
        if has_key(id_pairs(ps), src.0) && asked.last() {
            let p = key_pos(id_pairs(ps), src.0);
            prev.update(p, prev[p].push(ConnectionEvent::KeyframeRequest(src.1)))
        } else {
            prev
        }
    }
}

/// The events of making the media `mids` inactive, in order.
pub open spec fn inactive_events(mids: Seq<Seq<char>>) -> Seq<ConnectionEvent> {
    mids.map_values(|m: Seq<char>| ConnectionEvent::Inactive(m))
}

/// The connection logs after the peer `pid` left: its log goes with it,
/// and every participant of its room that received its tracks has those
/// media made inactive, in the order of its outgoing tracks.
pub open spec fn logs_after_departure(before: SfuServer, after: SfuServer, pid: ParticipantId) -> bool {
    &&& !has_key(id_pairs(before.peer_views()), pid) ==> after.logs() == before.logs()
    &&& has_key(id_pairs(before.peer_views()), pid) ==> {
        let i = key_pos(id_pairs(before.peer_views()), pid);
        let gone = before.peer_views()[i];
        let rest = before.peer_views().remove(i);
        let lrest = before.logs().remove(i);
        &&& after.logs().len() == lrest.len()
        &&& forall|j: int|
            0 <= j < rest.len() ==> #[trigger] after.logs()[j] == if affected_by_departure(rest[j], gone) {
                lrest[j] + inactive_events(mids_from(rest[j].tracks_out, pid))
            } else {
                lrest[j]
            }
    }
}

/// The SDP batches opened after the peer `pid` left: every participant of
/// its room that received its tracks has one more, in which its
/// renegotiation offer is made; the others have as many as before.
pub open spec fn batches_after_departure(before: SfuServer, after: SfuServer, pid: ParticipantId) -> bool {
    &&& !has_key(id_pairs(before.peer_views()), pid) ==> after.batches() == before.batches()
    &&& has_key(id_pairs(before.peer_views()), pid) ==> {
        let i = key_pos(id_pairs(before.peer_views()), pid);
        let gone = before.peer_views()[i];
        let rest = before.peer_views().remove(i);
        let brest = before.batches().remove(i);
        &&& after.batches().len() == brest.len()
        &&& forall|j: int|
            0 <= j < rest.len() ==> #[trigger] after.batches()[j] == if affected_by_departure(rest[j], gone) {
                brest[j] + 1
            } else {
                brest[j]
            }
    }
}

/// The peers at the positions that `keep` keeps, in order.
pub open spec fn kept_peers(ps: Seq<PeerView>, keep: Seq<bool>) -> Seq<PeerView>
    decreases ps.len(),
{
    if ps.len() == 0 || keep.len() == 0 {
        seq![]
    } else {
        let r = kept_peers(ps.drop_last(), keep.drop_last());
        if keep.last() {
            r.push(ps.last())
        } else {
            r
        }
    }
}

/// The ids of the peers at the positions that `keep` drops, in order.
pub open spec fn dropped_ids(ps: Seq<PeerView>, keep: Seq<bool>) -> Seq<ParticipantId>
    decreases ps.len(),
{
    if ps.len() == 0 || keep.len() == 0 {
        seq![]
    } else {
        let r = dropped_ids(ps.drop_last(), keep.drop_last());
        if keep.last() {
            r
        } else {
            r.push(ps.last().id)
        }
    }
}

/// The leave events of the peers at the positions that `keep` drops, in
/// order.
pub open spec fn dropped_events(ps: Seq<PeerView>, keep: Seq<bool>) -> Seq<ActionView>
    decreases ps.len(),
{
    if ps.len() == 0 || keep.len() == 0 {
        seq![]
    } else {
        let r = dropped_events(ps.drop_last(), keep.drop_last());
        if keep.last() {
            r
        } else {
            r + leave_events(ps.last())
        }
    }
}

/// `after` is the relay `before` once it forgot the participants
/// `dropped`: they have no voice activity and are no pipe transports, the
/// others keep theirs, and the active speaker stays unless it was dropped;
/// it is never one of the dropped.
pub open spec fn relay_after_drops(before: MediaRelay, after: MediaRelay, dropped: Seq<ParticipantId>) -> bool {
    &&& after.wf()
    &&& forall|q: ParticipantId| dropped.contains(q) ==> state_of(after.voices(), q) is None
    &&& forall|q: ParticipantId| !dropped.contains(q) ==> state_of(after.voices(), q) == state_of(before.voices(), q)
    &&& forall|q: ParticipantId|
        #[trigger] after.pipe_ids().contains(q.value) == (before.pipe_ids().contains(q.value) && !dropped.contains(q))
    &&& (before.speaker() matches Some(s) && !dropped.contains(s)) ==> after.speaker() == before.speaker()
    &&& after.speaker() matches Some(s) ==> !dropped.contains(s)
}

/// `after` is `before` once the peers whose connections were no longer
/// alive, those at the positions that `keep` drops, were dropped with the
/// leave events `actions`.
pub open spec fn cleaned_up(before: SfuServer, after: SfuServer, keep: Seq<bool>, actions: Seq<ActionView>) -> bool {
    &&& keep.len() == before.peer_views().len()
    &&& after.peer_views() == kept_peers(before.peer_views(), keep)
    &&& actions == dropped_events(before.peer_views(), keep)
    &&& relay_after_drops(before.relay(), after.relay(), dropped_ids(before.peer_views(), keep))
    &&& forall|j: int| 0 <= j < keep.len() && before.rtc_of(j).closed() ==> !#[trigger] keep[j]
}

/// The offers among `outs`, in order.
pub open spec fn offers_made(outs: Seq<Option<ActionView>>) -> Seq<ActionView>
    decreases outs.len(),
{
    if outs.len() == 0 {
        seq![]
    } else {
        let r = offers_made(outs.drop_last());
        match outs.last() {
            Some(a) => r.push(a),
            None => r,
        }
    }
}

/// `new` is `old` once sent every track of `sources` it lacked, with `out`
/// what was published for it: nothing, and no change, where it lacked
/// nothing; otherwise the new tracks on fresh media ids and, where an offer
/// came of it, that offer (see `offered_missing_tracks`).
pub open spec fn offered(
    old: PeerView,
    new: PeerView,
    sources: Seq<(ParticipantId, Seq<char>, Seq<(Seq<char>, MediaKind)>)>,
    merge_existing: bool,
    out: Option<ActionView>,
) -> bool {
    let missing = missing_tracks(old.id, old.outgoing, sources);
    &&& missing.len() == 0 ==> new == old && out is None
    &&& missing.len() > 0 ==> exists|mids: Seq<Seq<char>>|
        #[trigger] offered_missing_tracks(old, new, missing, mids, sources, merge_existing, out)
}

/// What renegotiating `room` did, with `outs` what was published for each
/// peer: first, for each participant of the room in order, its offer with
/// the mappings of all the tracks it receives from the room; then, for each
/// pipe transport of the room in order, its offer with the mappings of its
/// new tracks. `actions` are those offers, in that order; the other peers
/// are unchanged.
pub open spec fn renegotiation_record(
    ps0: Seq<PeerView>,
    fin: Seq<PeerView>,
    room: (Seq<char>, Seq<char>),
    outs: Seq<Option<ActionView>>,
    actions: Seq<ActionView>,
) -> bool {
    let n = ps0.len();
    let src = room_sources(ps0, room);
    &&& fin.len() == n
    &&& outs.len() == 2 * n
    &&& actions == offers_made(outs)
    &&& forall|j: int|
        0 <= j < n ==> if ps0[j].room == room && !ps0[j].is_pipe_transport {
            offered(ps0[j], #[trigger] fin[j], src, true, outs[j]) && outs[n + j] is None
        } else if ps0[j].room == room {
            outs[j] is None && offered(ps0[j], fin[j], src, false, outs[n + j])
        } else {
            fin[j] == ps0[j] && outs[j] is None && outs[n + j] is None
        }
}

/// The decision state of the SFU's event loop.
pub struct SfuServer {
    peers: Vec<SfuPeer>,
    relay: MediaRelay,
    quality_preferences: HashMap<u64, String>,
    pending_renegotiations: Vec<(RoomId, u64)>,
}

impl SfuServer {
    /// The peers, in the order they joined.
    pub closed spec fn peer_views(&self) -> Seq<PeerView> {
        self.peers@.map_values(|p: SfuPeer| p@)
    }

    /// The media relay.
    pub closed spec fn relay(&self) -> MediaRelay {
        self.relay
    }

    /// Quality preference per participant id value.
    pub closed spec fn preferences(&self) -> Map<u64, Seq<char>> {
        self.quality_preferences@.map_values(|s: String| s@)
    }

    /// Rooms to renegotiate, each with the time it becomes due.
    pub closed spec fn pending(&self) -> Seq<((Seq<char>, Seq<char>), u64)> {
        pending_view(self.pending_renegotiations@)
    }

    /// A well-formed server holds one peer per participant id, each with
    /// distinct keys in its tables, a well-formed relay and one pending
    /// renegotiation per room.
    pub proof fn lemma_wf_facts(&self)
        requires
            self.wf(),
        ensures
            peers_wf(self.peer_views()),
            self.relay().wf(),
            keys_distinct(self.pending()),
    {
    }

    /// What the library handed each peer's connection, in peer order.
    pub closed spec fn logs(&self) -> Seq<Seq<ConnectionEvent>> {
        self.peers@.map_values(|p: SfuPeer| p.rtc.log())
    }

    /// The media ids whose changes each peer's pending server offer
    /// carries, in peer order; none for a peer without one.
    pub closed spec fn pending_media(&self) -> Seq<Seq<Seq<char>>> {
        self.peers@.map_values(
            |p: SfuPeer|
                match p.pending_offer {
                    Some(o) => o.media(),
                    None => Seq::<Seq<char>>::empty(),
                },
        )
    }

    /// How many SDP batches the library opened on each peer's connection,
    /// in peer order.
    pub closed spec fn batches(&self) -> Seq<nat> {
        self.peers@.map_values(|p: SfuPeer| p.rtc.batches())
    }

    /// The connection of the `i`-th peer.
    pub closed spec fn rtc_of(&self, i: int) -> Connection {
        self.peers@[i].rtc
    }

    /// The server's invariant.
    pub closed spec fn wf(&self) -> bool {
        &&& peers_wf(self.peer_views())
        &&& self.relay.wf()
        &&& keys_distinct(self.pending())
    }

    pub fn new() -> (e: SfuServer)
        ensures
            e.wf(),
            e.peer_views() == Seq::<PeerView>::empty(),
            e.relay().voices().len() == 0,
            e.relay().speaker() is None,
            e.relay().pipe_ids() == Set::<u64>::empty(),
            e.preferences() == Map::<u64, Seq<char>>::empty(),
            e.pending() == Seq::<((Seq<char>, Seq<char>), u64)>::empty(),
    {
        let e = SfuServer {
            peers: Vec::new(),
            relay: MediaRelay::new(),
            quality_preferences: HashMap::new(),
            pending_renegotiations: Vec::new(),
        };
        proof {
            assert(e.peer_views() =~= Seq::<PeerView>::empty());
            assert(e.preferences() =~= Map::<u64, Seq<char>>::empty());
            assert(e.pending() =~= Seq::<((Seq<char>, Seq<char>), u64)>::empty());
        }
        e
    }

    /// Accepts a peer's SDP offer on `rtc`, the new connection that the
    /// caller made for the peer with its host candidate (or the reason it
    /// could not), and hands back the connection with the answer's JSON.
    /// The connection is not yet a peer: `add_peer` makes it one.
    pub fn create_rtc_for_offer(offer: SdpOffer, rtc: Result<Connection, String>) -> (r: Result<(Connection, String), String>)
        ensures
            rtc matches Err(e) ==> (r matches Err(m) && m@ == e@),
            rtc is Ok ==> (r matches Err(m) ==> "Failed to accept SDP offer: "@.is_prefix_of(m@)),
    {
        let mut rtc = match rtc {
            Ok(rtc) => rtc,
            Err(e) => {
                return Err(e);
            },
        };
        let api = rtc_sdp_api(&mut rtc);
        let answer = match sdp_accept_offer(api, offer) {
            Ok(answer) => answer,
            Err(e) => {
                let mut m = String::from_str("Failed to accept SDP offer: ");
                m.append(e.as_str());
                proof {
                    assert(m@.subrange(0, "Failed to accept SDP offer: "@.len() as int) =~= "Failed to accept SDP offer: "@);
                }
                return Err(m);
            },
        };
        match sdp_answer_to_json(&answer) {
            Ok(json) => Ok((rtc, json)),
            Err(e) => {
                let mut m = String::from_str("Failed to serialize SDP answer: ");
                m.append(e.as_str());
                proof {
                    assert(m@.subrange(0, "Failed to serialize SDP answer: "@.len() as int)
                        =~= "Failed to serialize SDP answer: "@);
                }
                Err(m)
            },
        }
    }

    /// The number of peers.
    pub fn peer_count(&self) -> (n: usize)
        ensures
            n == self.peer_views().len(),
    {
        self.peers.len()
    }

    /// The id of the `i`-th peer.
    pub fn peer_id(&self, i: usize) -> (id: ParticipantId)
        requires
            i < self.peer_views().len(),
        ensures
            id == self.peer_views()[i as int].id,
    {
        self.peers[i].id
    }

    /// The connection of the `i`-th peer, for the event loop to drive.
    /// Nothing else of the server changes.
    pub fn peer_rtc_mut(&mut self, i: usize) -> (r: &mut Connection)
        requires
            i < old(self).peer_views().len(),
        ensures
            final(self).peer_views() == old(self).peer_views(),
            final(self).relay() == old(self).relay(),
            final(self).preferences() == old(self).preferences(),
            final(self).pending() == old(self).pending(),
            *r == old(self).rtc_of(i as int),
            final(self).rtc_of(i as int) == *final(r),
            forall|j: int| 0 <= j < old(self).peer_views().len() && j != i ==> final(self).rtc_of(j) == old(self).rtc_of(j),
            final(self).wf() == old(self).wf(),
    {
        proof {
            let ps = self.peer_views();
            assert(id_pairs(ps) == id_pairs(old(self).peer_views()));
        }
        &mut self.peers[i].rtc
    }

    /// The media relay.
    pub fn media_relay(&self) -> (r: &MediaRelay)
        ensures
            *r == self.relay(),
    {
        &self.relay
    }

    /// Position of the peer with id `pid`.
    pub fn find_peer(&self, pid: ParticipantId) -> (r: Option<usize>)
        requires
            self.wf(),
        ensures
            match r {
                Some(i) => i < self.peer_views().len() && self.peer_views()[i as int].id == pid && key_pos(
                    id_pairs(self.peer_views()),
                    pid,
                ) == i,
                None => !has_key(id_pairs(self.peer_views()), pid),
            },
    {
        let ghost ps = self.peer_views();
        let mut i: usize = 0;
        while i < self.peers.len()
            invariant
                i <= self.peers@.len(),
                ps == self.peer_views(),
                peers_wf(ps),
                forall|j: int| 0 <= j < i ==> ps[j].id != pid,
            decreases self.peers@.len() - i,
        {
            if self.peers[i].id == pid {
                proof {
                    assert(id_pairs(ps)[i as int].0 == pid);
                    lemma_key_pos_unique(id_pairs(ps), pid, i as int);
                }
                return Some(i);
            }
            i = i + 1;
        }
        proof {
            assert forall|j: int| 0 <= j < id_pairs(ps).len() implies id_pairs(ps)[j].0 != pid by {
                assert(id_pairs(ps)[j].0 == ps[j].id);
            }
        }
        None
    }

    /// Position of the first peer with DID `did` in room `room`.
    pub fn find_peer_by_did(&self, did: &String, room: &RoomId) -> (r: Option<usize>)
        ensures
            match r {
                Some(i) => is_first_by_did(self.peer_views(), did@, room@, i as int),
                None => forall|j: int|
                    0 <= j < self.peer_views().len() ==> !(self.peer_views()[j].agent_did == did@
                        && self.peer_views()[j].room == room@),
            },
    {
        let ghost ps = self.peer_views();
        let mut i: usize = 0;
        while i < self.peers.len()
            invariant
                i <= self.peers@.len(),
                ps == self.peer_views(),
                forall|j: int| 0 <= j < i ==> !(ps[j].agent_did == did@ && ps[j].room == room@),
            decreases self.peers@.len() - i,
        {
            if self.peers[i].agent_did == *did && self.peers[i].room_id.same_room(room) {
                return Some(i);
            }
            i = i + 1;
        }
        None
    }

    /// Adds a peer that has completed its SDP negotiation (replacing a peer
    /// with the same id). A pipe transport is registered with the relay; a
    /// participant's "joined" event is published. The peer's room is
    /// renegotiated `RENEGOTIATION_DELAY_MS` after `now`, when its
    /// subscription to offers is up, unless a new track comes first.
    pub fn add_peer(&mut self, peer: SfuPeer, now: u64) -> (actions: Vec<SfuAction>)
        requires
            old(self).wf(),
            peer_wf(peer@),
            now <= u64::MAX - RENEGOTIATION_DELAY_MS,
        ensures
            final(self).wf(),
            joined(*old(self), *final(self), peer@, now, actions_view(actions@)),
            final(self).logs() == if has_key(id_pairs(old(self).peer_views()), peer@.id) {
                old(self).logs().update(key_pos(id_pairs(old(self).peer_views()), peer@.id), peer.rtc.log())
            } else {
                old(self).logs().push(peer.rtc.log())
            },
    {
        let mut actions: Vec<SfuAction> = Vec::new();
        let ghost plog = peer.rtc.log();
        if peer.is_pipe_transport {
            self.relay.register_pipe_transport(peer.id);
        } else {
            let joined = "joined";
            proof {
                reveal_strlit("joined");
                assert(joined@ =~= joined_text());
            }
            let event = CallParticipantEvent {
                room_id: peer.room_id.to_string(),
                agent_did: peer.agent_did.clone(),
                event_type: joined.to_owned(),
            };
            let a = SfuAction::PublishParticipant(event);
            actions.push(a);
            proof {
                assert(actions@ =~= seq![a]);
                assert(action_view(a) == ActionView::Participant { room: room_key(peer@.room), did: peer@.agent_did, event: joined_text() });
                assert(actions_view(actions@) =~= seq![
                    ActionView::Participant { room: room_key(peer@.room), did: peer@.agent_did, event: joined_text() },
                ]);
            }
        }
        proof {
            if peer.is_pipe_transport {
                assert(actions_view(actions@) =~= Seq::<ActionView>::empty());
            }
        }
        let due = now + RENEGOTIATION_DELAY_MS;
        self.schedule_renegotiation(&peer.room_id, due);
        let ghost ps = self.peer_views();
        let ghost lg = self.logs();
        proof {
            lemma_map_insert(id_pairs(ps), peer@.id, peer@);
            assert(lg =~= old(self).logs());
        }
        match self.find_peer(peer.id) {
            Some(i) => {
                self.peers.set(i, peer);
                proof {
                    assert(self.logs() =~= lg.update(i as int, plog));
                    assert(self.peer_views() =~= ps.update(i as int, peer@));
                    lemma_key_pos_unique(id_pairs(ps), peer@.id, i as int);
                    assert(id_pairs(self.peer_views()) =~= map_insert(id_pairs(ps), peer@.id, peer@));
                }
            },
            None => {
                self.peers.push(peer);
                proof {
                    assert(self.logs() =~= lg.push(plog));
                    assert(self.peer_views() =~= ps.push(peer@));
                    assert(id_pairs(self.peer_views()) =~= map_insert(id_pairs(ps), peer@.id, peer@));
                }
            },
        }
        proof {
            let nps = self.peer_views();
            assert forall|k: int| 0 <= k < nps.len() implies peer_wf(#[trigger] nps[k]) by {
                if k < ps.len() && nps[k] == ps[k] {
                } else {
                    assert(id_pairs(nps)[k].1 == nps[k]);
                }
            }
        }
        actions
    }

    /// Position of `room` among the pending renegotiations.
    fn find_pending(&self, room: &RoomId) -> (r: Option<usize>)
        ensures
            match r {
                Some(i) => i < self.pending().len() && self.pending()[i as int].0 == room@,
                None => !has_key(self.pending(), room@),
            },
    {
        let ghost pv = self.pending();
        let mut i: usize = 0;
        while i < self.pending_renegotiations.len()
            invariant
                i <= self.pending_renegotiations@.len(),
                pv == pending_view(self.pending_renegotiations@),
                forall|j: int| 0 <= j < i ==> pv[j].0 != room@,
            decreases self.pending_renegotiations@.len() - i,
        {
            if self.pending_renegotiations[i].0.same_room(room) {
                return Some(i);
            }
            i = i + 1;
        }
        None
    }

    /// Makes `room` due for renegotiation at `due`.
    fn schedule_renegotiation(&mut self, room: &RoomId, due: u64)
        requires
            keys_distinct(old(self).pending()),
        ensures
            final(self).pending() == map_insert(old(self).pending(), room@, due),
            keys_distinct(final(self).pending()),
            final(self).peers == old(self).peers,
            final(self).relay == old(self).relay,
            final(self).quality_preferences == old(self).quality_preferences,
    {
        let ghost pv = self.pending();
        proof {
            lemma_map_insert(pv, room@, due);
        }
        match self.find_pending(room) {
            Some(i) => {
                proof {
                    lemma_key_pos_unique(pv, room@, i as int);
                }
                self.pending_renegotiations.set(i, (room.copy(), due));
            },
            None => {
                self.pending_renegotiations.push((room.copy(), due));
            },
        }
        proof {
            assert(self.pending() =~= map_insert(pv, room@, due));
        }
    }

    /// Records a participant's preferred video quality ("high", "medium",
    /// "low" or "auto").
    pub fn set_quality_preference(&mut self, participant_id: ParticipantId, preference: String)
        requires
            old(self).wf(),
        ensures
            final(self).wf(),
            preference_set(*old(self), *final(self), participant_id, preference@),
    {
        let ghost pv = preference@;
        self.quality_preferences.insert(participant_id.value, preference);
        proof {
            assert(self.preferences() =~= old(self).preferences().insert(participant_id.value, pv));
        }
    }

    /// The events published when `p` leaves.
    fn leave_actions(p: &SfuPeer) -> (actions: Vec<SfuAction>)
        ensures
            actions_view(actions@) == leave_events(p@),
    {
        let mut actions: Vec<SfuAction> = Vec::new();
        if p.is_pipe_transport {
            proof {
                assert(actions_view(actions@) =~= leave_events(p@));
            }
            return actions;
        }
        let left = "left";
        let removed = "removed";
        proof {
            reveal_strlit("left");
            reveal_strlit("removed");
            assert(left@ =~= left_text());
            assert(removed@ =~= removed_text());
        }
        let room = p.room_id.to_string();
        let first = SfuAction::PublishParticipant(
            CallParticipantEvent { room_id: room.clone(), agent_did: p.agent_did.clone(), event_type: left.to_owned() },
        );
        actions.push(first);
        let ghost head = actions_view(actions@);
        proof {
            assert(actions@ =~= seq![first]);
            assert(head =~= seq![ActionView::Participant { room: room_key(p@.room), did: p@.agent_did, event: left_text() }]);
        }
        let mut i: usize = 0;
        while i < p.tracks_in.len()
            invariant
                i <= p.tracks_in@.len(),
                room@ == room_key(p@.room),
                removed@ == removed_text(),
                actions_view(actions@) == head + stream_removed_events(p@).take(i as int),
            decreases p.tracks_in@.len() - i,
        {
            let ghost prev = actions@;
            let a = SfuAction::PublishStream(
                CallStreamEvent {
                    room_id: room.clone(),
                    agent_did: p.agent_did.clone(),
                    track_kind: media_kind_label(p.tracks_in[i].kind),
                    event_type: removed.to_owned(),
                },
            );
            actions.push(a);
            proof {
                assert(actions@ == prev.push(a));
                assert(actions_view(actions@) =~= actions_view(prev).push(action_view(a)));
                assert(p@.tracks_in[i as int].1 == p.tracks_in@[i as int].kind);
                assert(actions_view(actions@) =~= head + stream_removed_events(p@).take(i + 1));
            }
            i = i + 1;
        }
        proof {
            assert(stream_removed_events(p@).take(i as int) =~= stream_removed_events(p@));
        }
        actions
    }

    /// Drops a peer whose connection is no longer alive: its leave events
    /// are published and the relay forgets it at `now`. (Unlike an explicit
    /// leave, the tracks other peers receive from it stay mapped.)
    pub fn remove_disconnected(&mut self, pid: ParticipantId, now: u64) -> (actions: Vec<SfuAction>)
        requires
            old(self).wf(),
        ensures
            final(self).wf(),
            final(self).preferences() == old(self).preferences(),
            final(self).pending() == old(self).pending(),
            has_key(id_pairs(old(self).peer_views()), pid) ==> {
                let i = key_pos(id_pairs(old(self).peer_views()), pid);
                &&& final(self).peer_views() == old(self).peer_views().remove(i)
                &&& actions_view(actions@) == leave_events(old(self).peer_views()[i])
                &&& crate::relay::relay_after_removal(old(self).relay(), final(self).relay(), pid, now)
                &&& final(self).logs() == old(self).logs().remove(i)
            },
            !has_key(id_pairs(old(self).peer_views()), pid) ==> final(self).peer_views() == old(self).peer_views(),
            !has_key(id_pairs(old(self).peer_views()), pid) ==> final(self).logs() == old(self).logs(),
            !has_key(id_pairs(old(self).peer_views()), pid) ==> final(self).relay() == old(self).relay(),
            !has_key(id_pairs(old(self).peer_views()), pid) ==> actions@.len() == 0,
    {
        match self.find_peer(pid) {
            Some(i) => {
                let ghost ps = self.peer_views();
                proof {
                    assert(id_pairs(ps)[i as int].0 == pid);
                }
                let p = self.peers.remove(i);
                proof {
                    assert(self.peer_views() =~= ps.remove(i as int));
                    assert(ps[i as int] == p@);
                    crate::assoc::lemma_remove_keys_distinct(id_pairs(ps), i as int);
                    assert(id_pairs(self.peer_views()) =~= id_pairs(ps).remove(i as int));
                    assert(self.logs() =~= old(self).logs().remove(i as int));
                }
                let actions = Self::leave_actions(&p);
                self.relay.remove_participant(&pid, now);
                actions
            },
            None => {
                let v: Vec<SfuAction> = Vec::new();
                v
            },
        }
    }

    /// The sources of `room`: each of its peers, in order, with its DID and
    /// a copy of the tracks it sends.
    pub fn collect_sources(&self, room: &RoomId) -> (r: Vec<TrackSource>)
        ensures
            sources_view(r@) == room_sources(self.peer_views(), room@),
    {
        let ghost ps = self.peer_views();
        let mut r: Vec<TrackSource> = Vec::new();
        let mut i: usize = 0;
        while i < self.peers.len()
            invariant
                i <= self.peers@.len(),
                ps == self.peer_views(),
                sources_view(r@) == room_sources(ps.take(i as int), room@),
            decreases self.peers@.len() - i,
        {
            let p = &self.peers[i];
            proof {
                assert(ps.take(i + 1).drop_last() =~= ps.take(i as int));
                assert(ps.take(i + 1).last() == p@);
            }
            if p.room_id.same_room(room) {
                let ghost prev = r@;
                let src = TrackSource { pid: p.id, did: p.agent_did.clone(), tracks: copy_tracks(&p.tracks_in) };
                r.push(src);
                proof {
                    assert(r@ == prev.push(src));
                    assert(sources_view(r@) =~= sources_view(prev).push((p@.id, p@.agent_did, p@.tracks_in)));
                }
            }
            i = i + 1;
        }
        proof {
            assert(ps.take(i as int) =~= ps);
        }
        r
    }

    /// Sends the `i`-th peer, on new send-only media, every track of
    /// `sources` it does not receive yet: the media are added to an SDP
    /// batch (merged with any pending offer), the new ids are recorded, and
    /// where the batch yields an offer, it becomes the pending offer and is
    /// published with its track mappings. Nothing happens where no track is
    /// missing.
    pub fn offer_missing_tracks(&mut self, i: usize, sources: &Vec<TrackSource>, merge_existing: bool) -> (r:
        Option<SfuAction>)
        requires
            old(self).wf(),
            i < old(self).peer_views().len(),
        ensures
            final(self).wf(),
            final(self).relay() == old(self).relay(),
            final(self).preferences() == old(self).preferences(),
            final(self).pending() == old(self).pending(),
            final(self).peer_views().len() == old(self).peer_views().len(),
            forall|j: int|
                0 <= j < old(self).peer_views().len() && j != i ==> final(self).peer_views()[j]
                    == old(self).peer_views()[j],
            ({
                let p = old(self).peer_views()[i as int];
                let missing = missing_tracks(p.id, p.outgoing, sources_view(sources@));
                &&& missing.len() == 0 ==> final(self).peer_views()[i as int] == p && r is None
                &&& missing.len() > 0 ==> exists|mids: Seq<Seq<char>>|
                    #[trigger] offered_missing_tracks(
                        p,
                        final(self).peer_views()[i as int],
                        missing,
                        mids,
                        sources_view(sources@),
                        merge_existing,
                        opt_action_view(r),
                    ) && (final(self).peer_views()[i as int].has_pending_offer ==> final(self).pending_media()[i as int]
                        == old(self).pending_media()[i as int] + mids)
                &&& missing.len() == 0 ==> final(self).pending_media() == old(self).pending_media()
            }),
            final(self).logs() == old(self).logs(),
            final(self).pending_media().len() == old(self).pending_media().len(),
            forall|j: int|
                0 <= j < old(self).pending_media().len() && j != i ==> #[trigger] final(self).pending_media()[j] == old(
                    self,
                ).pending_media()[j],
    {
        let ghost ps = self.peer_views();
        let ghost p = ps[i as int];
        let ghost pm0 = self.pending_media()[i as int];
        let missing = find_missing_receive_tracks(&self.peers[i], sources);
        if missing.len() == 0 {
            return None;
        }
        let prev = self.peers[i].pending_offer.take();
        let mut mids: Vec<String> = Vec::new();
        let apply_result;
        {
            let mut api = rtc_sdp_api(&mut self.peers[i].rtc);
            match prev {
                Some(pending) => sdp_merge(&mut api, pending),
                None => {},
            }
            proof {
                assert(api.media() =~= pm0 + strings_of(mids@));
            }
            let mut k: usize = 0;
            while k < missing.len()
                invariant
                    k <= missing@.len(),
                    mids@.len() == k,
                    api.media() == pm0 + strings_of(mids@),
                decreases missing@.len() - k,
            {
                let mid = sdp_add_send_only_media(&mut api, missing[k].kind);
                let ghost prev_mids = mids@;
                mids.push(mid);
                proof {
                    assert(strings_of(mids@) =~= strings_of(prev_mids).push(mid@));
                    assert(api.media() =~= pm0 + strings_of(mids@));
                }
                k = k + 1;
            }
            apply_result = sdp_apply(api);
        }
        proof {
            assert(self.peer_views() =~= ps.update(i as int, PeerView { has_pending_offer: false, ..p }));
            assert(peer_wf(ps[i as int]));
        }
        let ghost ps1 = self.peer_views();
        record_new_tracks(&mut self.peers[i], &missing, &mids);
        let new_maps = new_track_mappings(&missing, &mids);
        let mappings = if merge_existing {
            offer_track_mappings(&self.peers[i], sources, new_maps)
        } else {
            new_maps
        };
        let ghost ps2 = self.peer_views();
        let result = match apply_result {
            Some((offer, pending)) => {
                proof {
                    assert(pending.media() == pm0 + strings_of(mids@));
                }
                self.peers[i].pending_offer = Some(pending);
                proof {
                    assert(self.pending_media()[i as int] == pm0 + strings_of(mids@));
                }
                match sdp_offer_to_json(&offer) {
                    Ok(json) => {
                        let event = RenegotiationOfferEvent {
                            room_id: self.peers[i].room_id.to_string(),
                            agent_did: self.peers[i].agent_did.clone(),
                            sdp_offer: json,
                            track_mapping: mappings,
                        };
                        Some(SfuAction::PublishOffer(event))
                    },
                    Err(_) => None,
                }
            },
            None => None,
        };
        proof {
            assert(self.logs() =~= old(self).logs());
            assert(self.pending_media().len() == old(self).pending_media().len());
            assert forall|j: int| 0 <= j < old(self).pending_media().len() && j != i implies #[trigger] self.pending_media()[j]
                == old(self).pending_media()[j] by {
                assert(self.peers@[j] == old(self).peers@[j]);
            }
            let mv = missing_view(missing@);
            let sv = strings_of(mids@);
            let nps = self.peer_views();
            assert(nps.len() == ps.len());
            lemma_with_new_tracks_fields(p, mv, sv, false);
            let q = with_new_tracks(p, mv, sv);
            assert(ps1[i as int] == PeerView { has_pending_offer: false, ..p });
            assert(ps2[i as int] == PeerView { has_pending_offer: false, ..q });
            assert(routing_of(nps[i as int]) == routing_of(q));
            assert(nps[i as int].id == p.id);
            if merge_existing {
                assert(strings_of(mappings@) == merged_mappings(new_mappings(mv, sv), q.tracks_out, q.outgoing, sources_view(sources@)));
            } else {
                assert(strings_of(mappings@) == new_mappings(mv, sv));
            }
            assert forall|j: int| 0 <= j < ps.len() && j != i implies nps[j] == ps[j] by {
                assert(ps1[j] == ps[j]);
                assert(ps2[j] == ps1[j]);
            }
            assert(offered_missing_tracks(
                p,
                nps[i as int],
                mv,
                sv,
                sources_view(sources@),
                merge_existing,
                opt_action_view(result),
            ));
            assert(id_pairs(nps) =~= id_pairs(ps).update(i as int, (p.id, nps[i as int])));
            assert forall|a: int, b: int|
                0 <= a < id_pairs(nps).len() && 0 <= b < id_pairs(nps).len() && a != b implies id_pairs(
                nps,
            )[a].0 != id_pairs(nps)[b].0 by {
                assert(id_pairs(nps)[a].0 == id_pairs(ps)[a].0);
                assert(id_pairs(nps)[b].0 == id_pairs(ps)[b].0);
            }
            assert forall|k: int| 0 <= k < nps.len() implies peer_wf(#[trigger] nps[k]) by {
                if k != i {
                    assert(nps[k] == ps[k]);
                }
            }
        }
        result
    }

    /// Renegotiates a room after a peer joined or added a track: each
    /// participant of the room, then each pipe transport, is sent every
    /// track of the room it does not receive yet. A participant's offer
    /// lists the mappings of all the tracks it receives from the room; a
    /// pipe's offer those of its new tracks.
    pub fn renegotiate_room(&mut self, room: &RoomId) -> (actions: Vec<SfuAction>)
        requires
            old(self).wf(),
        ensures
            final(self).wf(),
            final(self).relay() == old(self).relay(),
            final(self).preferences() == old(self).preferences(),
            final(self).pending() == old(self).pending(),
            final(self).peer_views().len() == old(self).peer_views().len(),
            forall|j: int|
                0 <= j < old(self).peer_views().len() ==> if old(self).peer_views()[j].room == room@ {
                    renegotiated(
                        old(self).peer_views()[j],
                        #[trigger] final(self).peer_views()[j],
                        room_sources(old(self).peer_views(), room@),
                    )
                } else {
                    final(self).peer_views()[j] == old(self).peer_views()[j]
                },
            room_complete(final(self).peer_views(), room@),
            offers_in_room(actions_view(actions@), room@),
            exists|outs: Seq<Option<ActionView>>| #[trigger] renegotiation_record(
                old(self).peer_views(),
                final(self).peer_views(),
                room@,
                outs,
                actions_view(actions@),
            ),
            room_complete(old(self).peer_views(), room@) ==> actions@.len() == 0 && final(self).peer_views() == old(
                self,
            ).peer_views(),
            final(self).logs() == old(self).logs(),
            final(self).pending_media().len() == old(self).pending_media().len(),
            forall|j: int|
                0 <= j < old(self).pending_media().len() && (#[trigger] final(self).peer_views()[j]).has_pending_offer
                    ==> old(self).pending_media()[j].is_prefix_of(final(self).pending_media()[j]),
    {
        let ghost ps0 = self.peer_views();
        let ghost pm0 = self.pending_media();
        let sources = self.collect_sources(room);
        let ghost sv = sources_view(sources@);
        let mut actions: Vec<SfuAction> = Vec::new();
        let n = self.peers.len();
        let ghost mut outs: Seq<Option<ActionView>> = Seq::new((2 * n) as nat, |k: int| None);
        let mut i: usize = 0;
        while i < n
            invariant
                self.wf(),
                n == ps0.len(),
                i <= n,
                sv == sources_view(sources@),
                sv == room_sources(ps0, room@),
                self.logs() == old(self).logs(),
                self.relay() == old(self).relay(),
                self.preferences() == old(self).preferences(),
                self.pending() == old(self).pending(),
                self.peer_views().len() == n,
                pm0.len() == n,
                self.pending_media().len() == n,
                forall|j: int|
                    0 <= j < n && !(j < i && ps0[j].room == room@ && !ps0[j].is_pipe_transport) ==> #[trigger] self.pending_media()[j]
                        == pm0[j],
                forall|j: int|
                    0 <= j < n && (#[trigger] self.peer_views()[j]).has_pending_offer ==> pm0[j].is_prefix_of(self.pending_media()[j]),
                forall|j: int|
                    0 <= j < n ==> if j < i && ps0[j].room == room@ && !ps0[j].is_pipe_transport {
                        renegotiated(ps0[j], #[trigger] self.peer_views()[j], sv)
                    } else {
                        self.peer_views()[j] == ps0[j]
                    },
                offers_in_room(actions_view(actions@), room@),
                outs.len() == 2 * n,
                forall|k: int| i <= k < 2 * n ==> (#[trigger] outs[k]) is None,
                forall|j: int|
                    0 <= j < i ==> if ps0[j].room == room@ && !ps0[j].is_pipe_transport {
                        offered(ps0[j], self.peer_views()[j], sv, true, #[trigger] outs[j])
                    } else {
                        (#[trigger] outs[j]) is None
                    },
                actions_view(actions@) == offers_made(outs.take(i as int)),
            decreases n - i,
        {
            let ghost outs0 = outs;
            if self.peers[i].room_id.same_room(room) && !self.peers[i].is_pipe_transport {
                let ghost before = self.peer_views();
                let ghost pmb = self.pending_media();
                let r = self.offer_missing_tracks(i, &sources, true);
                proof {
                    lemma_offer_keeps_pending_changes(
                        before[i as int],
                        self.peer_views()[i as int],
                        sv,
                        true,
                        opt_action_view(r),
                        pm0[i as int],
                        pmb[i as int],
                        self.pending_media()[i as int],
                    );
                    assert forall|j: int|
                        0 <= j < n && (#[trigger] self.peer_views()[j]).has_pending_offer implies pm0[j].is_prefix_of(
                        self.pending_media()[j],
                    ) by {
                        if j != i {
                            assert(self.peer_views()[j] == before[j]);
                            assert(self.pending_media()[j] == pmb[j]);
                        }
                    }
                    let p = before[i as int];
                    assert(p == ps0[i as int]);
                    let missing = missing_tracks(p.id, p.outgoing, sv);
                    if missing.len() > 0 {
                        let mids = choose|mids: Seq<Seq<char>>|
                            #[trigger] offered_missing_tracks(
                                p,
                                self.peer_views()[i as int],
                                missing,
                                mids,
                                sv,
                                true,
                                opt_action_view(r),
                            );
                        assert(mids.len() == missing.len() && routing_of(self.peer_views()[i as int]) == routing_of(
                            with_new_tracks(p, missing, mids),
                        ));
                        lemma_with_new_tracks_fields(p, missing, mids, false);
                    }
                    assert(renegotiated(ps0[i as int], self.peer_views()[i as int], sv));
                    assert(offered(p, self.peer_views()[i as int], sv, true, opt_action_view(r)));
                }
                let ghost ra = opt_action_view(r);
                match r {
                    Some(a) => {
                        let ghost prev = actions@;
                        actions.push(a);
                        proof {
                            assert(actions@ == prev.push(a));
                            assert(actions_view(actions@) =~= actions_view(prev).push(action_view(a)));
                        }
                    },
                    None => {},
                }
                proof {
                    outs = outs0.update(i as int, ra);
                }
            }
            proof {
                assert(outs.take(i + 1).drop_last() =~= outs0.take(i as int));
                assert(outs.take(i + 1).last() == outs[i as int]);
            }
            i = i + 1;
        }
        let ghost ps1 = self.peer_views();
        let mut i: usize = 0;
        while i < n
            invariant
                self.wf(),
                n == ps0.len(),
                i <= n,
                sv == sources_view(sources@),
                sv == room_sources(ps0, room@),
                self.logs() == old(self).logs(),
                self.relay() == old(self).relay(),
                self.preferences() == old(self).preferences(),
                self.pending() == old(self).pending(),
                self.peer_views().len() == n,
                ps1.len() == n,
                pm0.len() == n,
                self.pending_media().len() == n,
                forall|j: int|
                    0 <= j < n && !(ps0[j].room == room@ && !ps0[j].is_pipe_transport) && !(j < i && ps0[j].room == room@
                        && ps0[j].is_pipe_transport) ==> #[trigger] self.pending_media()[j] == pm0[j],
                forall|j: int|
                    0 <= j < n && (#[trigger] self.peer_views()[j]).has_pending_offer ==> pm0[j].is_prefix_of(self.pending_media()[j]),
                forall|j: int|
                    0 <= j < n ==> if ps0[j].room == room@ && !ps0[j].is_pipe_transport {
                        renegotiated(ps0[j], #[trigger] ps1[j], sv)
                    } else {
                        ps1[j] == ps0[j]
                    },
                forall|j: int|
                    0 <= j < n ==> if j < i && ps0[j].room == room@ && ps0[j].is_pipe_transport {
                        renegotiated(ps0[j], #[trigger] self.peer_views()[j], sv)
                    } else {
                        self.peer_views()[j] == ps1[j]
                    },
                offers_in_room(actions_view(actions@), room@),
                outs.len() == 2 * n,
                forall|k: int| n + i <= k < 2 * n ==> (#[trigger] outs[k]) is None,
                forall|j: int|
                    0 <= j < n ==> if ps0[j].room == room@ && !ps0[j].is_pipe_transport {
                        offered(ps0[j], ps1[j], sv, true, #[trigger] outs[j])
                    } else {
                        (#[trigger] outs[j]) is None
                    },
                forall|j: int|
                    0 <= j < i ==> if ps0[j].room == room@ && ps0[j].is_pipe_transport {
                        offered(ps0[j], self.peer_views()[j], sv, false, #[trigger] outs[n + j])
                    } else {
                        (#[trigger] outs[n + j]) is None
                    },
                actions_view(actions@) == offers_made(outs.take(n + i)),
            decreases n - i,
        {
            let ghost outs0 = outs;
            if self.peers[i].room_id.same_room(room) && self.peers[i].is_pipe_transport {
                let ghost before = self.peer_views();
                let ghost pmb = self.pending_media();
                let r = self.offer_missing_tracks(i, &sources, false);
                proof {
                    lemma_offer_keeps_pending_changes(
                        before[i as int],
                        self.peer_views()[i as int],
                        sv,
                        false,
                        opt_action_view(r),
                        pm0[i as int],
                        pmb[i as int],
                        self.pending_media()[i as int],
                    );
                    assert forall|j: int|
                        0 <= j < n && (#[trigger] self.peer_views()[j]).has_pending_offer implies pm0[j].is_prefix_of(
                        self.pending_media()[j],
                    ) by {
                        if j != i {
                            assert(self.peer_views()[j] == before[j]);
                            assert(self.pending_media()[j] == pmb[j]);
                        }
                    }
                    let p = before[i as int];
                    assert(p == ps1[i as int]);
                    if ps0[i as int].room == room@ && !ps0[i as int].is_pipe_transport {
                        assert(renegotiated(ps0[i as int], ps1[i as int], sv));
                    }
                    assert(p == ps0[i as int]);
                    let missing = missing_tracks(p.id, p.outgoing, sv);
                    if missing.len() > 0 {
                        let mids = choose|mids: Seq<Seq<char>>|
                            #[trigger] offered_missing_tracks(
                                p,
                                self.peer_views()[i as int],
                                missing,
                                mids,
                                sv,
                                false,
                                opt_action_view(r),
                            );
                        assert(mids.len() == missing.len() && routing_of(self.peer_views()[i as int]) == routing_of(
                            with_new_tracks(p, missing, mids),
                        ));
                        lemma_with_new_tracks_fields(p, missing, mids, false);
                    }
                    assert(renegotiated(ps0[i as int], self.peer_views()[i as int], sv));
                    assert(offered(p, self.peer_views()[i as int], sv, false, opt_action_view(r)));
                }
                let ghost ra = opt_action_view(r);
                match r {
                    Some(a) => {
                        let ghost prev = actions@;
                        actions.push(a);
                        proof {
                            assert(actions@ == prev.push(a));
                            assert(actions_view(actions@) =~= actions_view(prev).push(action_view(a)));
                        }
                    },
                    None => {},
                }
                proof {
                    outs = outs0.update(n + i, ra);
                }
            }
            proof {
                assert(outs.take(n + i + 1).drop_last() =~= outs0.take(n + i));
                assert(outs.take(n + i + 1).last() == outs[n + i]);
            }
            i = i + 1;
        }
        proof {
            let fs = self.peer_views();
            assert forall|j: int| 0 <= j < n implies if ps0[j].room == room@ {
                renegotiated(ps0[j], #[trigger] fs[j], sv)
            } else {
                fs[j] == ps0[j]
            } by {
                if ps0[j].room == room@ && !ps0[j].is_pipe_transport {
                    assert(fs[j] == ps1[j]);
                    assert(renegotiated(ps0[j], ps1[j], sv));
                }
            }
            lemma_room_renegotiated(ps0, fs, room@);
            assert(outs.take(2 * n) =~= outs);
            assert forall|j: int| 0 <= j < n implies if ps0[j].room == room@ && !ps0[j].is_pipe_transport {
                offered(ps0[j], #[trigger] fs[j], sv, true, outs[j]) && outs[n + j] is None
            } else if ps0[j].room == room@ {
                outs[j] is None && offered(ps0[j], fs[j], sv, false, outs[n + j])
            } else {
                fs[j] == ps0[j] && outs[j] is None && outs[n + j] is None
            } by {
                if ps0[j].room == room@ && !ps0[j].is_pipe_transport {
                    assert(fs[j] == ps1[j]);
                }
            }
            assert(renegotiation_record(ps0, fs, room@, outs, actions_view(actions@)));
            if room_complete(ps0, room@) {
                lemma_complete_room_unchanged(ps0, fs, room@, outs, actions_view(actions@));
            }
        }
        actions
    }

    /// The peers of `room`, each with its DID.
    pub fn collect_room_dids(&self, room: &RoomId) -> (r: Vec<(ParticipantId, String)>)
        ensures
            dids_view(r@) == room_dids(self.peer_views(), room@),
    {
        let ghost ps = self.peer_views();
        let mut r: Vec<(ParticipantId, String)> = Vec::new();
        let mut i: usize = 0;
        while i < self.peers.len()
            invariant
                i <= self.peers@.len(),
                ps == self.peer_views(),
                dids_view(r@) == room_dids(ps.take(i as int), room@),
            decreases self.peers@.len() - i,
        {
            let p = &self.peers[i];
            proof {
                assert(ps.take(i + 1).drop_last() =~= ps.take(i as int));
                assert(ps.take(i + 1).last() == p@);
            }
            if p.room_id.same_room(room) {
                let ghost prev = r@;
                let e = (p.id, p.agent_did.clone());
                r.push(e);
                proof {
                    assert(r@ == prev.push(e));
                    assert(dids_view(r@) =~= dids_view(prev).push((p@.id, p@.agent_did)));
                }
            }
            i = i + 1;
        }
        proof {
            assert(ps.take(i as int) =~= ps);
        }
        r
    }

    /// Makes an offer of the `i`-th peer's pending changes (merged with any
    /// pending offer) and, where one comes of it, publishes it with
    /// `track_mappings`. The peer's routing does not change.
    pub fn generate_and_publish_offer(&mut self, i: usize, track_mappings: Vec<String>) -> (r: Option<SfuAction>)
        requires
            old(self).wf(),
            i < old(self).peer_views().len(),
        ensures
            final(self).wf(),
            final(self).relay() == old(self).relay(),
            final(self).preferences() == old(self).preferences(),
            final(self).pending() == old(self).pending(),
            final(self).peer_views().len() == old(self).peer_views().len(),
            forall|j: int|
                0 <= j < old(self).peer_views().len() && j != i ==> final(self).peer_views()[j]
                    == old(self).peer_views()[j],
            routing_of(final(self).peer_views()[i as int]) == routing_of(old(self).peer_views()[i as int]),
            r matches Some(a) ==> (action_view(a) matches ActionView::Offer { room, did, mappings, .. } && room
                == room_key(old(self).peer_views()[i as int].room) && did == old(
                self,
            ).peer_views()[i as int].agent_did && mappings == strings_of(track_mappings@)),
            r is Some ==> final(self).peer_views()[i as int].has_pending_offer,
            final(self).logs() == old(self).logs(),
            final(self).batches() == old(self).batches().update(i as int, old(self).batches()[i as int] + 1),
            final(self).peer_views()[i as int].has_pending_offer ==> final(self).pending_media() == old(self).pending_media(),
            !final(self).peer_views()[i as int].has_pending_offer ==> final(self).pending_media() == old(
                self,
            ).pending_media().update(i as int, Seq::<Seq<char>>::empty()),
    {
        let ghost ps = self.peer_views();
        let ghost pm = self.pending_media();
        let prev = self.peers[i].pending_offer.take();
        let apply_result;
        {
            let mut api = rtc_sdp_api(&mut self.peers[i].rtc);
            match prev {
                Some(pending) => sdp_merge(&mut api, pending),
                None => {},
            }
            proof {
                assert(api.media() =~= pm[i as int]);
            }
            apply_result = sdp_apply(api);
        }
        let result = match apply_result {
            Some((offer, pending)) => {
                proof {
                    assert(pending.media() == pm[i as int]);
                }
                self.peers[i].pending_offer = Some(pending);
                proof {
                    assert(self.pending_media() =~= pm);
                }
                match sdp_offer_to_json(&offer) {
                    Ok(json) => {
                        let event = RenegotiationOfferEvent {
                            room_id: self.peers[i].room_id.to_string(),
                            agent_did: self.peers[i].agent_did.clone(),
                            sdp_offer: json,
                            track_mapping: track_mappings,
                        };
                        Some(SfuAction::PublishOffer(event))
                    },
                    Err(_) => None,
                }
            },
            None => {
                proof {
                    assert(self.pending_media() =~= pm.update(i as int, Seq::<Seq<char>>::empty()));
                }
                None
            },
        };
        proof {
            assert(self.logs() =~= old(self).logs());
            assert(self.batches() =~= old(self).batches().update(i as int, old(self).batches()[i as int] + 1));
            let nps = self.peer_views();
            assert(nps.len() == ps.len());
            assert forall|j: int| 0 <= j < ps.len() && j != i implies nps[j] == ps[j] by {}
            assert(routing_of(nps[i as int]) == routing_of(ps[i as int]));
            assert(id_pairs(nps) =~= id_pairs(ps).update(i as int, (ps[i as int].id, nps[i as int])));
            assert forall|a: int, b: int|
                0 <= a < id_pairs(nps).len() && 0 <= b < id_pairs(nps).len() && a != b implies id_pairs(
                nps,
            )[a].0 != id_pairs(nps)[b].0 by {
                assert(id_pairs(nps)[a].0 == id_pairs(ps)[a].0);
                assert(id_pairs(nps)[b].0 == id_pairs(ps)[b].0);
            }
            assert forall|k: int| 0 <= k < nps.len() implies peer_wf(#[trigger] nps[k]) by {
                if k != i {
                    assert(nps[k] == ps[k]);
                } else {
                    assert(peer_wf(ps[k]));
                }
            }
        }
        result
    }

    /// A peer leaves (explicit leave or disconnect command). Its leave
    /// events are published, the relay and the quality preferences forget
    /// it, and every participant of its room that received its tracks marks
    /// those media inactive, forgets them and gets an offer whose mappings
    /// list the tracks it still receives.
    pub fn remove_peer(&mut self, pid: ParticipantId, now: u64) -> (actions: Vec<SfuAction>)
        requires
            old(self).wf(),
        ensures
            final(self).wf(),
            departed(*old(self), *final(self), pid, now, actions_view(actions@)),
            logs_after_departure(*old(self), *final(self), pid),
            batches_after_departure(*old(self), *final(self), pid),
    {
        let i = match self.find_peer(pid) {
            Some(i) => i,
            None => {
                let v: Vec<SfuAction> = Vec::new();
                return v;
            },
        };
        let ghost ps = self.peer_views();
        proof {
            assert(id_pairs(ps)[i as int].0 == pid);
        }
        let gone = self.peers.remove(i);
        let ghost rest = self.peer_views();
        proof {
            assert(rest =~= ps.remove(i as int));
            assert(ps[i as int] == gone@);
            crate::assoc::lemma_remove_keys_distinct(id_pairs(ps), i as int);
            assert(id_pairs(rest) =~= id_pairs(ps).remove(i as int));
            assert(self.logs() =~= old(self).logs().remove(i as int));
            assert(self.batches() =~= old(self).batches().remove(i as int));
        }
        let ghost lrest = self.logs();
        let ghost brest = self.batches();
        let mut actions = Self::leave_actions(&gone);
        let ghost leave = leave_events(gone@);
        self.relay.remove_participant(&pid, now);
        self.quality_preferences.remove(&pid.value);
        proof {
            assert(self.preferences() =~= old(self).preferences().remove(pid.value));
        }
        let ghost prefs = self.preferences();
        let ghost relay = self.relay();
        let n = self.peers.len();
        let mut needing: Vec<usize> = Vec::new();
        let mut j: usize = 0;
        while j < n
            invariant
                self.wf(),
                n == rest.len(),
                j <= n,
                gone@.id == pid,
                self.peer_views().len() == n,
                self.preferences() == prefs,
                self.relay() == relay,
                self.pending() == old(self).pending(),
                forall|jj: int|
                    0 <= jj < n ==> if jj < j && affected_by_departure(rest[jj], gone@) {
                        #[trigger] self.peer_views()[jj] == without_source(rest[jj], pid)
                    } else {
                        self.peer_views()[jj] == rest[jj]
                    },
                forall|k: int|
                    0 <= k < needing@.len() ==> needing@[k] < j && affected_by_departure(
                        rest[#[trigger] needing@[k] as int],
                        gone@,
                    ),
                forall|a: int, b: int| 0 <= a < b < needing@.len() ==> needing@[a] < needing@[b],
                lrest.len() == n,
                self.logs().len() == n,
                self.batches() == brest,
                forall|jj: int|
                    0 <= jj < j && affected_by_departure(rest[jj], gone@) ==> exists|q: int|
                        0 <= q < needing@.len() && #[trigger] needing@[q] == jj,
                forall|jj: int|
                    0 <= jj < n ==> #[trigger] self.logs()[jj] == if jj < j && affected_by_departure(rest[jj], gone@) {
                        lrest[jj] + inactive_events(mids_from(rest[jj].tracks_out, pid))
                    } else {
                        lrest[jj]
                    },
            decreases n - j,
        {
            let ghost before = self.peer_views();
            let ghost lb = self.logs();
            if self.peers[j].room_id.same_room(&gone.room_id) && !self.peers[j].is_pipe_transport {
                let departed = self.peers[j].mids_from(pid);
                if departed.len() > 0 {
                    let mut k: usize = 0;
                    while k < departed.len()
                        invariant
                            k <= departed@.len(),
                            j < n,
                            before.len() == n,
                            self.peers@.len() == n,
                            forall|x: int| 0 <= x < n ==> #[trigger] self.peers@[x]@ == before[x],
                            self.preferences() == prefs,
                            self.relay() == relay,
                            self.pending() == old(self).pending(),
                            lb.len() == n,
                            self.logs().len() == n,
                            self.batches() == brest,
                            forall|x: int| 0 <= x < n && x != j ==> #[trigger] self.logs()[x] == lb[x],
                            self.logs()[j as int] == lb[j as int] + inactive_events(strings_of(departed@.subrange(0, k as int))),
                        decreases departed@.len() - k,
                    {
                        let ghost pre = self.peers@;
                        let ghost pre_logs = self.logs();
                        let ghost pre_batches = self.batches();
                        sdp_set_inactive(&mut self.peers[j].rtc, &departed[k]);
                        proof {
                            assert(self.batches() =~= pre_batches);
                            assert(self.logs() =~= pre_logs.update(
                                j as int,
                                pre_logs[j as int].push(ConnectionEvent::Inactive(departed@[k as int]@)),
                            ));
                            assert(inactive_events(strings_of(departed@.subrange(0, k + 1))) =~= inactive_events(
                                strings_of(departed@.subrange(0, k as int)),
                            ).push(ConnectionEvent::Inactive(departed@[k as int]@)));
                            let jj = j as int;
                            let a = self.peers@[jj];
                            let b = pre[jj];
                            assert(a.id == b.id && a.room_id == b.room_id && a.agent_did == b.agent_did);
                            assert(a.tracks_in == b.tracks_in && a.tracks_out == b.tracks_out);
                            assert(a.outgoing_tracks == b.outgoing_tracks && a.pending_offer == b.pending_offer);
                            assert(a.is_pipe_transport == b.is_pipe_transport && a.pipe_remote_did == b.pipe_remote_did);
                            assert(a@ == b@);
                            assert forall|x: int| 0 <= x < n implies #[trigger] self.peers@[x]@ == before[x] by {
                                if x != jj {
                                    assert(self.peers@[x] == pre[x]);
                                }
                            }
                        }
                        k = k + 1;
                    }
                    proof {
                        assert(self.peer_views() =~= before);
                        assert(peer_wf(before[j as int]));
                        assert(departed@.subrange(0, departed@.len() as int) =~= departed@);
                    }
                    let ghost logs_inactive = self.logs();
                    let ghost batches_inactive = self.batches();
                    let ghost prev_needing = needing@;
                    self.peers[j].forget_source(pid);
                    needing.push(j);
                    proof {
                        assert(self.logs() =~= logs_inactive);
                        assert(self.batches() =~= batches_inactive);
                        assert(needing@ == prev_needing.push(j));
                        assert forall|jj: int|
                            0 <= jj < j + 1 && affected_by_departure(rest[jj], gone@) implies exists|q: int|
                                0 <= q < needing@.len() && #[trigger] needing@[q] == jj by {
                            if jj < j {
                                let q = choose|q: int| 0 <= q < prev_needing.len() && prev_needing[q] == jj;
                                assert(needing@[q] == prev_needing[q]);
                            } else {
                                assert(needing@[prev_needing.len() as int] == jj);
                            }
                        }
                        assert(strings_of(departed@) =~= departed@.map_values(|m: String| m@));
                        assert(before[j as int] == rest[j as int]);
                        assert(strings_of(departed@) == mids_from(rest[j as int].tracks_out, pid));
                        assert forall|jj: int| 0 <= jj < n implies #[trigger] self.logs()[jj] == if jj < j + 1
                            && affected_by_departure(rest[jj], gone@) {
                            lrest[jj] + inactive_events(mids_from(rest[jj].tracks_out, pid))
                        } else {
                            lrest[jj]
                        } by {
                            if jj != j {
                                assert(self.logs()[jj] == lb[jj]);
                            }
                        }
                        let nps = self.peer_views();
                        assert(before[j as int] == rest[j as int]);
                        assert(nps[j as int] == without_source(rest[j as int], pid));
                        assert(mids_from(rest[j as int].tracks_out, pid).len() == departed@.len()) by {
                            assert(departed@.map_values(|m: String| m@).len() == departed@.len());
                        }
                        assert(affected_by_departure(rest[j as int], gone@));
                        assert(id_pairs(nps) =~= id_pairs(before).update(j as int, (before[j as int].id, nps[j as int])));
                        assert forall|a: int, b: int|
                            0 <= a < id_pairs(nps).len() && 0 <= b < id_pairs(nps).len() && a != b implies id_pairs(
                            nps,
                        )[a].0 != id_pairs(nps)[b].0 by {
                            assert(id_pairs(nps)[a].0 == id_pairs(before)[a].0);
                            assert(id_pairs(nps)[b].0 == id_pairs(before)[b].0);
                        }
                        assert forall|x: int| 0 <= x < nps.len() implies peer_wf(#[trigger] nps[x]) by {
                            if x != j {
                                assert(nps[x] == before[x]);
                            }
                        }
                    }
                } else {
                    proof {
                        assert(mids_from(rest[j as int].tracks_out, pid).len() == departed@.len()) by {
                            assert(departed@.map_values(|m: String| m@).len() == departed@.len());
                        }
                    }
                }
            }
            j = j + 1;
        }
        let ghost mid_views = self.peer_views();
        let ghost logs1 = self.logs();
        proof {
            assert forall|jj: int|
                0 <= jj < n && affected_by_departure(rest[jj], gone@) implies exists|q: int|
                    0 <= q < needing@.len() && #[trigger] needing@[q] == jj by {}
        }
        let dids = self.collect_room_dids(&gone.room_id);
        proof {
            lemma_room_dids(mid_views, gone@.room);
        }
        let mut k: usize = 0;
        while k < needing.len()
            invariant
                self.wf(),
                n == rest.len(),
                k <= needing@.len(),
                gone@.id == pid,
                self.peer_views().len() == n,
                self.preferences() == prefs,
                self.relay() == relay,
                self.pending() == old(self).pending(),
                mid_views.len() == n,
                self.logs() == logs1,
                self.batches().len() == n,
                forall|q: int| 0 <= q < k ==> #[trigger] self.batches()[needing@[q] as int] == brest[needing@[q] as int] + 1,
                forall|x: int|
                    0 <= x < n && (forall|q: int| 0 <= q < k ==> #[trigger] needing@[q] != x) ==> #[trigger] self.batches()[x]
                        == brest[x],
                forall|a: int, b: int| 0 <= a < b < needing@.len() ==> needing@[a] < needing@[b],
                forall|jj: int|
                    0 <= jj < n && affected_by_departure(rest[jj], gone@) ==> exists|q: int|
                        0 <= q < needing@.len() && #[trigger] needing@[q] == jj,
                forall|x: int| 0 <= x < n ==> routing_of(#[trigger] self.peer_views()[x]) == routing_of(mid_views[x]),
                forall|x: int|
                    0 <= x < n && !affected_by_departure(rest[x], gone@) ==> #[trigger] self.peer_views()[x]
                        == mid_views[x],
                forall|x: int|
                    0 <= x < n ==> if affected_by_departure(rest[x], gone@) {
                        #[trigger] mid_views[x] == without_source(rest[x], pid)
                    } else {
                        mid_views[x] == rest[x]
                    },
                forall|q: int|
                    0 <= q < needing@.len() ==> needing@[q] < n && affected_by_departure(
                        rest[#[trigger] needing@[q] as int],
                        gone@,
                    ),
                dids_view(dids@) == room_dids(mid_views, gone@.room),
                keys_distinct(dids_view(dids@)),
                actions_view(actions@).take(leave.len() as int) == leave,
                leave.len() <= actions@.len(),
                leave == leave_events(gone@),
                forall|q: int|
                    leave.len() <= q < actions@.len() ==> exists|x: int|
                        0 <= x < rest.len() && affected_by_departure(rest[x], gone@) && (
                        #[trigger] actions_view(actions@)[q] matches ActionView::Offer { room, did, mappings, .. }
                            && room == room_key(gone@.room) && did == rest[x].agent_did && mappings
                            == departure_mappings(mid_views[x].tracks_out, mid_views[x].outgoing, dids_view(dids@))),
            decreases needing@.len() - k,
        {
            let idx = needing[k];
            let ghost before = self.peer_views();
            let mappings = departure_track_mappings(&self.peers[idx], &dids);
            proof {
                assert(routing_of(before[idx as int]) == routing_of(mid_views[idx as int]));
            }
            let ghost bb = self.batches();
            let r = self.generate_and_publish_offer(idx, mappings);
            proof {
                assert forall|q: int| 0 <= q < k implies #[trigger] needing@[q] != idx by {
                    assert(needing@[q] < needing@[k as int]);
                }
                assert(bb[idx as int] == brest[idx as int]);
                assert forall|q: int| 0 <= q < k + 1 implies #[trigger] self.batches()[needing@[q] as int]
                    == brest[needing@[q] as int] + 1 by {
                    if q < k {
                        assert(needing@[q] != idx);
                    }
                }
                assert forall|x: int|
                    0 <= x < n && (forall|q: int| 0 <= q < k + 1 ==> #[trigger] needing@[q] != x) implies #[trigger] self.batches()[x]
                        == brest[x] by {
                    assert(needing@[k as int] != x);
                }
            }
            match r {
                Some(a) => {
                    let ghost prev = actions@;
                    actions.push(a);
                    proof {
                        assert(actions@ == prev.push(a));
                        assert(actions_view(actions@) =~= actions_view(prev).push(action_view(a)));
                        assert(actions_view(actions@).take(leave.len() as int) =~= actions_view(prev).take(
                            leave.len() as int,
                        ));
                        let last = actions@.len() - 1;
                        assert(actions_view(actions@)[last] == action_view(a));
                        assert forall|q: int|
                            leave.len() <= q < actions@.len() implies exists|x: int|
                                0 <= x < rest.len() && affected_by_departure(rest[x], gone@) && (
                                #[trigger] actions_view(actions@)[q] matches ActionView::Offer {
                                    room,
                                    did,
                                    mappings,
                                    ..
                                } && room == room_key(gone@.room) && did == rest[x].agent_did && mappings
                                    == departure_mappings(mid_views[x].tracks_out, mid_views[x].outgoing, dids_view(dids@))) by {
                            if q < last {
                                assert(actions_view(actions@)[q] == actions_view(prev)[q]);
                            } else {
                                assert(affected_by_departure(rest[idx as int], gone@));
                                assert(before[idx as int].room == rest[idx as int].room);
                                assert(before[idx as int].agent_did == rest[idx as int].agent_did);
                            }
                        }
                    }
                },
                None => {},
            }
            k = k + 1;
        }
        proof {
            let fin = self.peer_views();
            lemma_room_dids_routing(mid_views, fin, gone@.room);
            assert forall|x: int| 0 <= x < rest.len() implies if affected_by_departure(rest[x], gone@) {
                routing_of(#[trigger] fin[x]) == routing_of(without_source(rest[x], pid))
            } else {
                fin[x] == rest[x]
            } by {
                assert(routing_of(fin[x]) == routing_of(mid_views[x]));
            }
            assert forall|q: int|
                leave.len() <= q < actions@.len() implies exists|x: int|
                    0 <= x < rest.len() && affected_by_departure(rest[x], gone@) && (
                    #[trigger] actions_view(actions@)[q] matches ActionView::Offer { room, did, mappings, .. } && room
                        == room_key(gone@.room) && did == rest[x].agent_did && mappings == departure_mappings(
                        fin[x].tracks_out,
                        fin[x].outgoing,
                        room_dids(fin, gone@.room),
                    )) by {
                let x = choose|x: int|
                    0 <= x < rest.len() && affected_by_departure(rest[x], gone@) && (
                    #[trigger] actions_view(actions@)[q] matches ActionView::Offer { room, did, mappings, .. } && room
                        == room_key(gone@.room) && did == rest[x].agent_did && mappings == departure_mappings(
                        mid_views[x].tracks_out,
                        mid_views[x].outgoing,
                        dids_view(dids@),
                    ));
                assert(routing_of(fin[x]) == routing_of(mid_views[x]));
            }
        }
        actions
    }

    /// The room of the `i`-th peer.
    pub fn peer_room(&self, i: usize) -> (r: RoomId)
        requires
            i < self.peer_views().len(),
        ensures
            r@ == self.peer_views()[i as int].room,
    {
        self.peers[i].room_id.copy()
    }

    /// Asks the `i`-th peer for a keyframe of its track `mid`, where its
    /// connection can write to that track.
    fn request_keyframe(&mut self, i: usize, mid: &String) -> (asked: bool)
        requires
            i < old(self).peers@.len(),
        ensures
            final(self).peers@.len() == old(self).peers@.len(),
            forall|x: int| 0 <= x < old(self).peers@.len() ==> #[trigger] final(self).peers@[x]@ == old(self).peers@[x]@,
            final(self).relay == old(self).relay,
            final(self).quality_preferences == old(self).quality_preferences,
            final(self).pending_renegotiations == old(self).pending_renegotiations,
            final(self).logs() == old(self).logs().update(
                i as int,
                if asked {
                    old(self).logs()[i as int].push(ConnectionEvent::KeyframeRequest(mid@))
                } else {
                    old(self).logs()[i as int]
                },
            ),
    {
        let ghost pre = self.peers@;
        let asked = match rtc_request_keyframe(&mut self.peers[i].rtc, mid) {
            Some(_) => true,
            None => false,
        };
        proof {
            assert(self.logs() =~= old(self).logs().update(
                i as int,
                if asked {
                    old(self).logs()[i as int].push(ConnectionEvent::KeyframeRequest(mid@))
                } else {
                    old(self).logs()[i as int]
                },
            ));
            let a = self.peers@[i as int];
            let b = pre[i as int];
            assert(a.id == b.id && a.room_id == b.room_id && a.agent_did == b.agent_did);
            assert(a.tracks_in == b.tracks_in && a.tracks_out == b.tracks_out);
            assert(a.outgoing_tracks == b.outgoing_tracks && a.pending_offer == b.pending_offer);
            assert(a@ == b@);
            assert forall|x: int| 0 <= x < pre.len() implies #[trigger] self.peers@[x]@ == pre[x]@ by {
                if x != i {
                    assert(self.peers@[x] == pre[x]);
                }
            }
        }
        asked
    }

    /// A client renegotiates its own SDP (it added or removed a track): its
    /// offer goes to the first peer with its DID in its room, and the answer
    /// comes back as JSON.
    pub fn renegotiate_peer(&mut self, agent_did: &String, room_id: &RoomId, sdp_offer: SdpOffer) -> (r: Result<
        String,
        String,
    >)
        requires
            old(self).wf(),
        ensures
            final(self).wf(),
            peer_renegotiated(*old(self), *final(self), agent_did@, room_id@, r),
    {
        match self.find_peer_by_did(agent_did, room_id) {
            None => {
                let mut m = String::from_str("No existing peer for DID ");
                m.append(agent_did.as_str());
                m.append(" in room ");
                let room = room_id.to_string();
                m.append(room.as_str());
                Err(m)
            },
            Some(i) => {
                let ghost pre = self.peers@;
                let api = rtc_sdp_api(&mut self.peers[i].rtc);
                let r = match sdp_accept_offer(api, sdp_offer) {
                    Ok(answer) => match sdp_answer_to_json(&answer) {
                        Ok(json) => Ok(json),
                        Err(e) => {
                            let mut m = String::from_str("Failed to serialize answer: ");
                            m.append(e.as_str());
                            Err(m)
                        },
                    },
                    Err(e) => {
                        let mut m = String::from_str("Failed to accept renegotiation offer: ");
                        m.append(e.as_str());
                        Err(m)
                    },
                };
                proof {
                    assert(self.logs() =~= old(self).logs());
                    let a = self.peers@[i as int];
                    let b = pre[i as int];
                    assert(a.id == b.id && a.room_id == b.room_id && a.agent_did == b.agent_did);
                    assert(a.tracks_in == b.tracks_in && a.tracks_out == b.tracks_out);
                    assert(a.outgoing_tracks == b.outgoing_tracks && a.pending_offer == b.pending_offer);
                    assert(self.peer_views() =~= old(self).peer_views());
                    if r is Err {
                        let m = r->Err_0;
                        let p1 = "Failed to accept renegotiation offer: "@;
                        assert(p1.is_prefix_of(m@));
                    }
                }
                r
            },
        }
    }

    /// A client answers a server offer: the first peer with its DID in its
    /// room must have a pending offer, which the answer settles; once it is
    /// accepted, the sources of the peer's video tracks are asked for
    /// keyframes.
    pub fn answer_server_offer(&mut self, agent_did: &String, room_id: &RoomId, sdp_answer: SdpAnswer) -> (r:
        Result<(), String>)
        requires
            old(self).wf(),
        ensures
            final(self).wf(),
            offer_answered(*old(self), *final(self), agent_did@, room_id@, r),
    {
        let i = match self.find_peer_by_did(agent_did, room_id) {
            None => {
                let mut m = String::from_str("No peer for DID ");
                m.append(agent_did.as_str());
                m.append(" in room ");
                let room = room_id.to_string();
                m.append(room.as_str());
                return Err(m);
            },
            Some(i) => i,
        };
        let ghost ps = self.peer_views();
        proof {
            assert forall|k: int| #[trigger] is_first_by_did(ps, agent_did@, room_id@, k) implies k == i by {
                if k < i {
                    assert(!(ps[k].agent_did == agent_did@ && ps[k].room == room_id@));
                }
                if i < k {
                    assert(!(ps[i as int].agent_did == agent_did@ && ps[i as int].room == room_id@));
                }
            }
        }
        let pending = match self.peers[i].pending_offer.take() {
            Some(p) => p,
            None => {
                proof {
                    assert(self.peer_views() =~= ps);
                    assert(self.logs() =~= old(self).logs());
                }
                return Err(String::from_str("No pending server offer"));
            },
        };
        let api = rtc_sdp_api(&mut self.peers[i].rtc);
        let accepted = sdp_accept_answer(api, pending, sdp_answer);
        let ghost after_accept = self.peer_views();
        let ghost logs0 = self.logs();
        let ghost srcs = keyframe_sources(ps[i as int]);
        proof {
            assert(logs0 =~= old(self).logs());
            assert(after_accept =~= ps.update(i as int, PeerView { has_pending_offer: false, ..ps[i as int] }));
            assert(id_pairs(after_accept) =~= id_pairs(ps).update(i as int, (ps[i as int].id, after_accept[i as int])));
            assert forall|a: int, b: int|
                0 <= a < id_pairs(after_accept).len() && 0 <= b < id_pairs(after_accept).len() && a != b implies id_pairs(
                after_accept,
            )[a].0 != id_pairs(after_accept)[b].0 by {
                assert(id_pairs(after_accept)[a].0 == id_pairs(ps)[a].0);
                assert(id_pairs(after_accept)[b].0 == id_pairs(ps)[b].0);
            }
            assert forall|k: int| 0 <= k < after_accept.len() implies peer_wf(#[trigger] after_accept[k]) by {
                assert(peer_wf(ps[k]));
            }
        }
        match accepted {
            Ok(()) => {
                let targets = self.peers[i].keyframe_sources();
                let ghost mut asked: Seq<bool> = Seq::empty();
                proof {
                    assert(keyframe_sources(after_accept[i as int]) == srcs);
                    assert forall|x: int| 0 <= x < targets@.len() implies (#[trigger] targets@[x]).0 == srcs[x].0
                        && targets@[x].1@ == srcs[x].1 by {
                        assert(targets@.map_values(|e: (ParticipantId, String)| (e.0, e.1@))[x] == srcs[x]);
                    }
                    assert(srcs.subrange(0, 0) =~= Seq::<(ParticipantId, Seq<char>)>::empty());
                }
                let mut k: usize = 0;
                while k < targets.len()
                    invariant
                        k <= targets@.len(),
                        targets@.len() == srcs.len(),
                        forall|x: int| 0 <= x < targets@.len() ==> (#[trigger] targets@[x]).0 == srcs[x].0 && targets@[x].1@ == srcs[x].1,
                        asked.len() == k,
                        self.logs() == logs_after_keyframe_requests(logs0, after_accept, srcs.subrange(0, k as int), asked),
                        self.peers@.len() == after_accept.len(),
                        forall|x: int| 0 <= x < after_accept.len() ==> #[trigger] self.peers@[x]@ == after_accept[x],
                        self.relay == old(self).relay,
                        self.quality_preferences == old(self).quality_preferences,
                        self.pending_renegotiations == old(self).pending_renegotiations,
                        peers_wf(after_accept),
                        old(self).wf(),
                    decreases targets@.len() - k,
                {
                    proof {
                        assert(self.peer_views() =~= after_accept);
                        assert(self.relay() == old(self).relay());
                        assert(self.pending() == old(self).pending());
                        assert(self.wf());
                    }
                    let ghost prev_logs = self.logs();
                    let ghost prev_asked = asked;
                    proof {
                        assert(srcs.subrange(0, k + 1).drop_last() =~= srcs.subrange(0, k as int));
                        assert(srcs.subrange(0, k + 1).last() == srcs[k as int]);
                    }
                    match self.find_peer(targets[k].0) {
                        Some(j) => {
                            let b = self.request_keyframe(j, &targets[k].1);
                            proof {
                                asked = prev_asked.push(b);
                                assert(asked.drop_last() =~= prev_asked);
                                assert(id_pairs(after_accept)[j as int].0 == srcs[k as int].0);
                                if !b {
                                    assert(self.logs() =~= prev_logs);
                                }
                            }
                        },
                        None => {
                            proof {
                                asked = prev_asked.push(false);
                                assert(asked.drop_last() =~= prev_asked);
                            }
                        },
                    }
                    k = k + 1;
                }
                proof {
                    assert(self.peer_views() =~= after_accept);
                    assert(srcs.subrange(0, k as int) =~= srcs);
                    assert(keyframe_sources(old(self).peer_views()[i as int]) == srcs);
                    assert forall|ii: int| #[trigger] is_first_by_did(old(self).peer_views(), agent_did@, room_id@, ii)
                        implies ii == i by {}
                }
                Ok(())
            },
            Err(e) => {
                proof {
                    assert(self.logs() == old(self).logs());
                }
                let mut m = String::from_str("Failed to accept answer: ");
                m.append(e.as_str());
                proof {
                    assert(m@.subrange(0, "Failed to accept answer: "@.len() as int) =~= "Failed to accept answer: "@);
                }
                Err(m)
            },
        }
    }

    /// The `i`-th peer started sending a track `mid` of `kind`: the track is
    /// recorded, a video track's first keyframe is asked for, and an
    /// "added" stream event is published.
    pub fn media_added(&mut self, i: usize, mid: String, kind: MediaKind) -> (a: SfuAction)
        requires
            old(self).wf(),
            i < old(self).peer_views().len(),
        ensures
            final(self).wf(),
            final(self).relay() == old(self).relay(),
            final(self).preferences() == old(self).preferences(),
            final(self).pending() == old(self).pending(),
            final(self).peer_views() == old(self).peer_views().update(
                i as int,
                PeerView {
                    tracks_in: map_insert(old(self).peer_views()[i as int].tracks_in, mid@, kind),
                    ..old(self).peer_views()[i as int]
                },
            ),
            action_view(a) == (ActionView::Stream {
                room: room_key(old(self).peer_views()[i as int].room),
                did: old(self).peer_views()[i as int].agent_did,
                kind: kind_label(kind),
                event: added_text(),
            }),
            final(self).logs() == old(self).logs() || (kind is Video && final(self).logs() == old(self).logs().update(
                i as int,
                old(self).logs()[i as int].push(ConnectionEvent::KeyframeRequest(mid@)),
            )),
    {
        let ghost ps = self.peer_views();
        proof {
            assert(peer_wf(ps[i as int]));
        }
        self.peers[i].add_track_in(mid.clone(), kind);
        let ghost ps1 = self.peer_views();
        proof {
            assert(self.logs() =~= old(self).logs());
            assert(ps1 =~= ps.update(
                i as int,
                PeerView { tracks_in: map_insert(ps[i as int].tracks_in, mid@, kind), ..ps[i as int] },
            ));
        }
        if kind == MediaKind::Video {
            let asked = self.request_keyframe(i, &mid);
            proof {
                assert(self.peer_views() =~= ps1);
                if !asked {
                    assert(self.logs() =~= old(self).logs());
                }
            }
        }
        let added = "added";
        proof {
            reveal_strlit("added");
            assert(added@ =~= added_text());
        }
        let event = CallStreamEvent {
            room_id: self.peers[i].room_id.to_string(),
            agent_did: self.peers[i].agent_did.clone(),
            track_kind: media_kind_label(kind),
            event_type: added.to_owned(),
        };
        proof {
            let nps = self.peer_views();
            assert(id_pairs(nps) =~= id_pairs(ps).update(i as int, (ps[i as int].id, nps[i as int])));
            assert forall|a: int, b: int|
                0 <= a < id_pairs(nps).len() && 0 <= b < id_pairs(nps).len() && a != b implies id_pairs(
                nps,
            )[a].0 != id_pairs(nps)[b].0 by {
                assert(id_pairs(nps)[a].0 == id_pairs(ps)[a].0);
                assert(id_pairs(nps)[b].0 == id_pairs(ps)[b].0);
            }
            assert forall|k: int| 0 <= k < nps.len() implies peer_wf(#[trigger] nps[k]) by {
                if k != i {
                    assert(nps[k] == ps[k]);
                }
            }
        }
        SfuAction::PublishStream(event)
    }

    /// The `i`-th peer's ICE connection changed state; once it is
    /// disconnected, the connection is closed.
    pub fn ice_state_changed(&mut self, i: usize, disconnected: bool)
        requires
            old(self).wf(),
            i < old(self).peer_views().len(),
        ensures
            final(self).wf(),
            final(self).peer_views() == old(self).peer_views(),
            final(self).relay() == old(self).relay(),
            final(self).preferences() == old(self).preferences(),
            final(self).pending() == old(self).pending(),
            !disconnected ==> *final(self) == *old(self),
            forall|j: int| 0 <= j < old(self).peer_views().len() && j != i ==> final(self).rtc_of(j) == old(self).rtc_of(j),
            disconnected ==> final(self).logs() == old(self).logs().update(
                i as int,
                old(self).logs()[i as int].push(ConnectionEvent::Disconnect),
            ),
            disconnected ==> final(self).rtc_of(i as int).closed(),
    {
        if disconnected {
            let ghost pre = self.peers@;
            rtc_disconnect(&mut self.peers[i].rtc);
            proof {
                let l = self.peers@[i as int].rtc.log();
                assert(l[l.len() - 1] == ConnectionEvent::Disconnect);
                assert(self.logs() =~= old(self).logs().update(i as int, old(self).logs()[i as int].push(ConnectionEvent::Disconnect)));
                let a = self.peers@[i as int];
                let b = pre[i as int];
                assert(a.id == b.id && a.room_id == b.room_id && a.agent_did == b.agent_did);
                assert(a.tracks_in == b.tracks_in && a.tracks_out == b.tracks_out);
                assert(a.outgoing_tracks == b.outgoing_tracks && a.pending_offer == b.pending_offer);
                assert(self.peer_views() =~= old(self).peer_views());
            }
        }
    }

    /// The ids of the peers whose connection is no longer alive, in order:
    /// those at the positions that the liveness of the connections, which
    /// str0m keeps, leaves out. A connection that the library closed is
    /// among them.
    pub fn disconnected_peers(&self) -> (r: Vec<ParticipantId>)
        ensures
            exists|keep: Seq<bool>|
                keep.len() == self.peer_views().len() && r@ == #[trigger] dropped_ids(self.peer_views(), keep) && (forall|j: int|
                    0 <= j < keep.len() && self.rtc_of(j).closed() ==> !#[trigger] keep[j]),
    {
        let ghost ps = self.peer_views();
        let ghost mut keep: Seq<bool> = seq![];
        let mut r: Vec<ParticipantId> = Vec::new();
        let mut i: usize = 0;
        while i < self.peers.len()
            invariant
                i <= self.peers@.len(),
                ps == self.peer_views(),
                keep.len() == i,
                r@ == dropped_ids(ps.take(i as int), keep),
                forall|j: int| 0 <= j < i && self.rtc_of(j).closed() ==> !#[trigger] keep[j],
            decreases self.peers@.len() - i,
        {
            proof {
                assert(ps.take(i + 1).drop_last() =~= ps.take(i as int));
                assert(ps.take(i + 1).last() == ps[i as int]);
            }
            let ghost k0 = keep;
            if !rtc_is_alive(&self.peers[i].rtc) {
                let ghost prev = r@;
                r.push(self.peers[i].id);
                proof {
                    keep = k0.push(false);
                    assert(keep.drop_last() =~= k0);
                    assert(ps[i as int].id == self.peers@[i as int].id);
                    assert(r@ == prev.push(ps[i as int].id));
                    assert(dropped_ids(ps.take(i + 1), keep) == dropped_ids(ps.take(i as int), k0).push(ps[i as int].id));
                }
            } else {
                proof {
                    keep = k0.push(true);
                    assert(keep.drop_last() =~= k0);
                    assert(dropped_ids(ps.take(i + 1), keep) == dropped_ids(ps.take(i as int), k0));
                    assert(!self.rtc_of(i as int).closed());
                }
            }
            i = i + 1;
        }
        proof {
            assert(ps.take(i as int) =~= ps);
        }
        r
    }

    /// Drops every peer whose connection is no longer alive (see
    /// `remove_disconnected`), in order, publishing their leave events: the
    /// peers that stay keep their order and state, the relay forgets the
    /// dropped ones, and the active speaker stays unless it was dropped.
    pub fn cleanup_disconnected(&mut self, now: u64) -> (actions: Vec<SfuAction>)
        requires
            old(self).wf(),
        ensures
            final(self).wf(),
            final(self).preferences() == old(self).preferences(),
            final(self).pending() == old(self).pending(),
            exists|keep: Seq<bool>| #[trigger] cleaned_up(*old(self), *final(self), keep, actions_view(actions@)),
    {
        let ghost ps = self.peer_views();
        let ghost r0 = self.relay();
        let ghost lg0 = self.logs();
        let ghost mut keep: Seq<bool> = seq![];
        let mut actions: Vec<SfuAction> = Vec::new();
        let mut i: usize = 0;
        while i < self.peers.len()
            invariant
                self.wf(),
                self.preferences() == old(self).preferences(),
                self.pending() == old(self).pending(),
                ps == old(self).peer_views(),
                r0 == old(self).relay(),
                keep.len() <= ps.len(),
                self.peer_views() == kept_peers(ps.take(keep.len() as int), keep) + ps.skip(keep.len() as int),
                i == kept_peers(ps.take(keep.len() as int), keep).len(),
                actions_view(actions@) == dropped_events(ps.take(keep.len() as int), keep),
                relay_after_drops(r0, self.relay(), dropped_ids(ps.take(keep.len() as int), keep)),
                lg0 == old(self).logs(),
                lg0.len() == ps.len(),
                self.logs().len() == i + (ps.len() - keep.len()),
                forall|x: int| 0 <= x < ps.len() - keep.len() ==> #[trigger] self.logs()[i + x] == lg0[keep.len() + x],
                forall|x: int| 0 <= x < keep.len() && lg0[x].contains(ConnectionEvent::Disconnect) ==> !#[trigger] keep[x],
            decreases self.peers@.len() - i,
        {
            let ghost d = keep.len() as int;
            let ghost cur = self.peer_views();
            let ghost kp = kept_peers(ps.take(d), keep);
            proof {
                lemma_kept_peers_len(ps.take(d), keep);
                assert(cur[i as int] == ps[d]);
                assert(ps.take(d + 1).drop_last() =~= ps.take(d));
                assert(ps.take(d + 1).last() == ps[d]);
            }
            let ghost lcur = self.logs();
            proof {
                assert(lcur[i + 0] == lg0[d + 0]);
                assert(lcur[i as int] == self.peers@[i as int].rtc.log());
            }
            if rtc_is_alive(&self.peers[i].rtc) {
                proof {
                    let nk = keep.push(true);
                    assert(!lg0[d].contains(ConnectionEvent::Disconnect));
                    assert forall|x: int| 0 <= x < ps.len() - nk.len() implies #[trigger] self.logs()[(i + 1) + x]
                        == lg0[nk.len() + x] by {
                        assert(lcur[i + (x + 1)] == lg0[d + (x + 1)]);
                    }
                    assert(nk.drop_last() =~= keep);
                    assert(kept_peers(ps.take(d + 1), nk) == kp.push(ps[d]));
                    assert(cur =~= kp.push(ps[d]) + ps.skip(d + 1));
                    assert(dropped_events(ps.take(d + 1), nk) == dropped_events(ps.take(d), keep));
                    assert(dropped_ids(ps.take(d + 1), nk) == dropped_ids(ps.take(d), keep));
                    keep = nk;
                }
                i = i + 1;
            } else {
                let pid = self.peers[i].id;
                let ghost rb = self.relay();
                proof {
                    assert(id_pairs(cur)[i as int].0 == pid);
                    lemma_key_pos_unique(id_pairs(cur), pid, i as int);
                }
                let mut more = self.remove_disconnected(pid, now);
                let ghost prev = actions@;
                actions.append(&mut more);
                proof {
                    let nk = keep.push(false);
                    assert(nk.drop_last() =~= keep);
                    assert(kept_peers(ps.take(d + 1), nk) == kp);
                    assert(self.peer_views() =~= kp + ps.skip(d + 1));
                    assert(actions_view(actions@) =~= actions_view(prev) + leave_events(ps[d]));
                    assert(dropped_events(ps.take(d + 1), nk) == dropped_events(ps.take(d), keep) + leave_events(ps[d]));
                    let dk = dropped_ids(ps.take(d), keep);
                    assert(dropped_ids(ps.take(d + 1), nk) == dk.push(pid));
                    lemma_relay_drop_step(r0, rb, self.relay(), dk, pid, now);
                    assert(self.logs() == lcur.remove(i as int));
                    assert forall|x: int| 0 <= x < ps.len() - nk.len() implies #[trigger] self.logs()[i + x]
                        == lg0[nk.len() + x] by {
                        assert(lcur[i + (x + 1)] == lg0[d + (x + 1)]);
                    }
                    keep = nk;
                }
            }
        }
        proof {
            lemma_kept_peers_len(ps.take(keep.len() as int), keep);
            assert(keep.len() == ps.len());
            assert forall|j: int| 0 <= j < keep.len() && old(self).rtc_of(j).closed() implies !#[trigger] keep[j] by {
                assert(lg0[j] == old(self).rtc_of(j).log());
            }
            assert(ps.take(ps.len() as int) =~= ps);
            assert(ps.skip(ps.len() as int) =~= Seq::<PeerView>::empty());
            assert(self.peer_views() =~= kept_peers(ps, keep));
            assert(cleaned_up(*old(self), *self, keep, actions_view(actions@)));
        }
        actions
    }

    /// Position of `room` among the pending renegotiations, for removal.
    fn cancel_renegotiation(&mut self, room: &RoomId)
        requires
            keys_distinct(old(self).pending()),
        ensures
            keys_distinct(final(self).pending()),
            final(self).pending() == map_remove(old(self).pending(), room@),
            final(self).peers == old(self).peers,
            final(self).relay == old(self).relay,
            final(self).quality_preferences == old(self).quality_preferences,
    {
        let ghost pv = self.pending();
        let mut kept: Vec<(RoomId, u64)> = Vec::new();
        let mut i: usize = 0;
        while i < self.pending_renegotiations.len()
            invariant
                i <= self.pending_renegotiations@.len(),
                pv == pending_view(self.pending_renegotiations@),
                pending_view(kept@) == map_remove(pv.take(i as int), room@),
            decreases self.pending_renegotiations@.len() - i,
        {
            proof {
                assert(pv.take(i + 1).drop_last() =~= pv.take(i as int));
                assert(pv.take(i + 1).last() == pv[i as int]);
            }
            if !self.pending_renegotiations[i].0.same_room(room) {
                let ghost prev = kept@;
                let e = (self.pending_renegotiations[i].0.copy(), self.pending_renegotiations[i].1);
                kept.push(e);
                proof {
                    assert(kept@ == prev.push(e));
                    assert(pending_view(kept@) =~= pending_view(prev).push(pv[i as int]));
                }
            }
            i = i + 1;
        }
        proof {
            assert(pv.take(i as int) =~= pv);
            lemma_map_remove(pv, room@);
        }
        self.pending_renegotiations = kept;
    }

    /// Rooms in which peers added tracks: each room, once and in order of
    /// first mention, is renegotiated, and its delayed renegotiation is
    /// dropped since it has just happened.
    pub fn renegotiate_rooms(&mut self, rooms: &Vec<RoomId>) -> (actions: Vec<SfuAction>)
        requires
            old(self).wf(),
        ensures
            final(self).wf(),
            final(self).preferences() == old(self).preferences(),
            final(self).relay() == old(self).relay(),
            final(self).logs() == old(self).logs(),
            final(self).peer_views().len() == old(self).peer_views().len(),
            forall|k: int| 0 <= k < rooms@.len() ==> !has_key(final(self).pending(), #[trigger] rooms@[k]@),
            forall|room: (Seq<char>, Seq<char>)|
                (forall|k: int| 0 <= k < rooms@.len() ==> #[trigger] rooms@[k]@ != room) ==> lookup(
                    final(self).pending(),
                    room,
                ) == lookup(old(self).pending(), room),
            forall|k: int| 0 <= k < rooms@.len() ==> room_complete(final(self).peer_views(), #[trigger] rooms@[k]@),
            forall|j: int|
                0 <= j < old(self).peer_views().len() && (forall|k: int|
                    0 <= k < rooms@.len() ==> #[trigger] rooms@[k]@ != old(self).peer_views()[j].room)
                    ==> #[trigger] final(self).peer_views()[j] == old(self).peer_views()[j],
    {
        let mut done: Vec<RoomId> = Vec::new();
        let mut actions: Vec<SfuAction> = Vec::new();
        let mut k: usize = 0;
        while k < rooms.len()
            invariant
                k <= rooms@.len(),
                self.wf(),
                self.preferences() == old(self).preferences(),
                self.relay() == old(self).relay(),
                self.logs() == old(self).logs(),
                self.peer_views().len() == old(self).peer_views().len(),
                forall|x: int| 0 <= x < k ==> !has_key(self.pending(), #[trigger] rooms@[x]@),
                forall|x: int| 0 <= x < done@.len() ==> !has_key(self.pending(), #[trigger] done@[x]@),
                forall|x: int| 0 <= x < k ==> exists|y: int| 0 <= y < done@.len() && #[trigger] rooms@[x]@ == done@[y]@,
                forall|room: (Seq<char>, Seq<char>)|
                    (forall|x: int| 0 <= x < rooms@.len() ==> #[trigger] rooms@[x]@ != room) ==> lookup(
                        self.pending(),
                        room,
                    ) == lookup(old(self).pending(), room),
                forall|y: int| 0 <= y < done@.len() ==> exists|x: int| 0 <= x < k && #[trigger] done@[y]@ == rooms@[x]@,
                forall|y: int| 0 <= y < done@.len() ==> room_complete(self.peer_views(), #[trigger] done@[y]@),
                forall|j: int|
                    0 <= j < old(self).peer_views().len() && (forall|y: int|
                        0 <= y < done@.len() ==> #[trigger] done@[y]@ != old(self).peer_views()[j].room) ==> #[trigger] self.peer_views()[j]
                        == old(self).peer_views()[j],
                forall|j: int|
                    0 <= j < old(self).peer_views().len() ==> (#[trigger] self.peer_views()[j]).room == old(
                        self,
                    ).peer_views()[j].room,
            decreases rooms@.len() - k,
        {
            let mut seen = false;
            let mut d: usize = 0;
            while d < done.len()
                invariant
                    d <= done@.len(),
                    k < rooms@.len(),
                    seen ==> exists|y: int| 0 <= y < done@.len() && rooms@[k as int]@ == done@[y]@,
                decreases done@.len() - d,
            {
                if done[d].same_room(&rooms[k]) {
                    seen = true;
                }
                d = d + 1;
            }
            if !seen {
                let ghost ps_before = self.peer_views();
                let mut more = self.renegotiate_room(&rooms[k]);
                proof {
                    lemma_room_renegotiated(ps_before, self.peer_views(), rooms@[k as int]@);
                }
                let ghost ps_after = self.peer_views();
                actions.append(&mut more);
                let ghost before = self.pending();
                self.cancel_renegotiation(&rooms[k]);
                proof {
                    lemma_map_remove(before, rooms@[k as int]@);
                }
                let ghost prev_done = done@;
                done.push(rooms[k].copy());
                proof {
                    let last = done@.len() - 1;
                    assert(done@ == prev_done.push(done@[last]));
                    assert(done@[last]@ == rooms@[k as int]@);
                    assert forall|x: int| 0 <= x < done@.len() implies !has_key(self.pending(), #[trigger] done@[x]@) by {
                        if x < last {
                            if has_key(self.pending(), done@[x]@) {
                                let p = key_pos(self.pending(), done@[x]@);
                                assert(done@[x]@ != rooms@[k as int]@ ==> lookup(self.pending(), done@[x]@) == lookup(before, done@[x]@));
                            }
                        }
                    }
                    assert forall|x: int| 0 <= x <= k implies exists|y: int| 0 <= y < done@.len() && #[trigger] rooms@[x]@ == done@[y]@ by {
                        if x == k {
                            assert(rooms@[x]@ == done@[last]@);
                        } else {
                            let y = choose|y: int| 0 <= y < prev_done.len() && rooms@[x]@ == prev_done[y]@;
                            assert(done@[y] == prev_done[y]);
                        }
                    }
                    assert forall|room: (Seq<char>, Seq<char>)|
                        (forall|x: int| 0 <= x < rooms@.len() ==> #[trigger] rooms@[x]@ != room) implies lookup(
                            self.pending(),
                            room,
                        ) == lookup(old(self).pending(), room) by {
                        assert(rooms@[k as int]@ != room);
                    }
                    assert(self.peer_views() == ps_after);
                    assert forall|y: int| 0 <= y < done@.len() implies room_complete(self.peer_views(), #[trigger] done@[y]@) by {
                        if y < last {
                            assert(done@[y] == prev_done[y]);
                            if done@[y]@ != rooms@[k as int]@ {
                                assert(room_complete(ps_before, done@[y]@));
                            }
                        }
                    }
                    assert forall|j: int|
                        0 <= j < old(self).peer_views().len() && (forall|y: int|
                            0 <= y < done@.len() ==> #[trigger] done@[y]@ != old(self).peer_views()[j].room) implies #[trigger] self.peer_views()[j]
                            == old(self).peer_views()[j] by {
                        assert(done@[last]@ != old(self).peer_views()[j].room);
                        assert forall|y: int| 0 <= y < prev_done.len() implies #[trigger] prev_done[y]@ != old(self).peer_views()[j].room by {
                            assert(done@[y] == prev_done[y]);
                        }
                        assert(ps_before[j] == old(self).peer_views()[j]);
                        assert(ps_before[j].room != rooms@[k as int]@);
                    }
                    assert forall|j: int| 0 <= j < old(self).peer_views().len() implies (#[trigger] self.peer_views()[j]).room == old(
                        self,
                    ).peer_views()[j].room by {
                        assert(ps_after[j].room == ps_before[j].room);
                    }
                }
            }
            proof {
                assert forall|x: int| 0 <= x <= k implies !has_key(self.pending(), #[trigger] rooms@[x]@) by {
                    let y = choose|y: int| 0 <= y < done@.len() && rooms@[x]@ == done@[y]@;
                    assert(!has_key(self.pending(), done@[y]@));
                }
            }
            k = k + 1;
        }
        proof {
            assert forall|x: int| 0 <= x < rooms@.len() implies room_complete(self.peer_views(), #[trigger] rooms@[x]@) by {
                let y = choose|y: int| 0 <= y < done@.len() && rooms@[x]@ == done@[y]@;
                assert(room_complete(self.peer_views(), done@[y]@));
            }
            assert forall|j: int|
                0 <= j < old(self).peer_views().len() && (forall|x: int|
                    0 <= x < rooms@.len() ==> #[trigger] rooms@[x]@ != old(self).peer_views()[j].room) implies #[trigger] self.peer_views()[j]
                    == old(self).peer_views()[j] by {
                assert forall|y: int| 0 <= y < done@.len() implies #[trigger] done@[y]@ != old(self).peer_views()[j].room by {
                    let x = choose|x: int| 0 <= x < k && #[trigger] done@[y]@ == rooms@[x]@;
                    assert(rooms@[x]@ != old(self).peer_views()[j].room);
                }
            }
        }
        actions
    }

    /// Runs the renegotiations that are due at `now`: each due room leaves
    /// the pending list and is renegotiated.
    pub fn run_due_renegotiations(&mut self, now: u64) -> (actions: Vec<SfuAction>)
        requires
            old(self).wf(),
        ensures
            final(self).wf(),
            final(self).pending() == not_due(old(self).pending(), now),
            final(self).preferences() == old(self).preferences(),
            final(self).relay() == old(self).relay(),
            final(self).logs() == old(self).logs(),
            final(self).peer_views().len() == old(self).peer_views().len(),
            forall|i: int|
                0 <= i < old(self).pending().len() && now >= old(self).pending()[i].1 ==> room_complete(
                    final(self).peer_views(),
                    (#[trigger] old(self).pending()[i]).0,
                ),
            forall|j: int|
                0 <= j < old(self).peer_views().len() && (forall|i: int|
                    0 <= i < old(self).pending().len() && now >= old(self).pending()[i].1 ==> (
                    #[trigger] old(self).pending()[i]).0 != old(self).peer_views()[j].room)
                    ==> #[trigger] final(self).peer_views()[j] == old(self).peer_views()[j],
    {
        let ghost pv = self.pending();
        let mut due: Vec<RoomId> = Vec::new();
        let mut kept: Vec<(RoomId, u64)> = Vec::new();
        let mut i: usize = 0;
        while i < self.pending_renegotiations.len()
            invariant
                i <= self.pending_renegotiations@.len(),
                pv == pending_view(self.pending_renegotiations@),
                pending_view(kept@) == not_due(pv.take(i as int), now),
                rooms_view(due@) == due_rooms(pv.take(i as int), now),
            decreases self.pending_renegotiations@.len() - i,
        {
            proof {
                assert(pv.take(i + 1).drop_last() =~= pv.take(i as int));
                assert(pv.take(i + 1).last() == pv[i as int]);
            }
            if now >= self.pending_renegotiations[i].1 {
                let ghost prev_due = due@;
                let room = self.pending_renegotiations[i].0.copy();
                due.push(room);
                proof {
                    assert(due@ == prev_due.push(room));
                    assert(rooms_view(due@) =~= rooms_view(prev_due).push(pv[i as int].0));
                }
            } else {
                let ghost prev = kept@;
                let e = (self.pending_renegotiations[i].0.copy(), self.pending_renegotiations[i].1);
                kept.push(e);
                proof {
                    assert(kept@ == prev.push(e));
                    assert(pending_view(kept@) =~= pending_view(prev).push(pv[i as int]));
                }
            }
            i = i + 1;
        }
        proof {
            assert(pv.take(i as int) =~= pv);
            lemma_not_due_distinct(pv, now);
        }
        self.pending_renegotiations = kept;
        proof {
            assert(self.logs() =~= old(self).logs());
        }
        let ghost dv = rooms_view(due@);
        let mut actions: Vec<SfuAction> = Vec::new();
        let mut k: usize = 0;
        while k < due.len()
            invariant
                k <= due@.len(),
                dv == rooms_view(due@),
                self.wf(),
                self.pending() == not_due(pv, now),
                self.preferences() == old(self).preferences(),
                self.relay() == old(self).relay(),
                self.logs() == old(self).logs(),
                self.peer_views().len() == old(self).peer_views().len(),
                forall|x: int| 0 <= x < k ==> room_complete(self.peer_views(), #[trigger] dv[x]),
                forall|j: int|
                    0 <= j < old(self).peer_views().len() && !dv.take(k as int).contains(old(self).peer_views()[j].room)
                        ==> #[trigger] self.peer_views()[j] == old(self).peer_views()[j],
                forall|j: int|
                    0 <= j < old(self).peer_views().len() ==> (#[trigger] self.peer_views()[j]).room == old(
                        self,
                    ).peer_views()[j].room,
            decreases due@.len() - k,
        {
            let ghost ps_before = self.peer_views();
            let mut more = self.renegotiate_room(&due[k]);
            proof {
                assert(dv[k as int] == due@[k as int]@);
                lemma_room_renegotiated(ps_before, self.peer_views(), dv[k as int]);
                assert forall|x: int| 0 <= x < k + 1 implies room_complete(self.peer_views(), #[trigger] dv[x]) by {
                    if x < k && dv[x] != dv[k as int] {
                        assert(room_complete(ps_before, dv[x]));
                    }
                }
                assert forall|j: int|
                    0 <= j < old(self).peer_views().len() && !dv.take(k + 1).contains(old(self).peer_views()[j].room)
                        implies #[trigger] self.peer_views()[j] == old(self).peer_views()[j] by {
                    assert(dv.take(k + 1)[k as int] == dv[k as int]);
                    assert(dv[k as int] != old(self).peer_views()[j].room);
                    if dv.take(k as int).contains(old(self).peer_views()[j].room) {
                        let x = choose|x: int| 0 <= x < k && dv.take(k as int)[x] == old(self).peer_views()[j].room;
                        assert(dv.take(k + 1)[x] == dv.take(k as int)[x]);
                    }
                    assert(ps_before[j] == old(self).peer_views()[j]);
                }
                assert forall|j: int| 0 <= j < old(self).peer_views().len() implies (#[trigger] self.peer_views()[j]).room == old(
                    self,
                ).peer_views()[j].room by {
                    assert(self.peer_views()[j].room == ps_before[j].room);
                }
            }
            actions.append(&mut more);
            k = k + 1;
        }
        proof {
            assert(dv.take(k as int) =~= dv);
            assert forall|e: int| 0 <= e < pv.len() && now >= pv[e].1 implies room_complete(self.peer_views(), (#[trigger] pv[e]).0) by {
                lemma_due_rooms(pv, now, e);
                let x = choose|x: int| 0 <= x < dv.len() && dv[x] == pv[e].0;
                assert(room_complete(self.peer_views(), dv[x]));
            }
            assert forall|j: int|
                0 <= j < old(self).peer_views().len() && (forall|e: int|
                    0 <= e < pv.len() && now >= pv[e].1 ==> (#[trigger] pv[e]).0 != old(self).peer_views()[j].room)
                    implies #[trigger] self.peer_views()[j] == old(self).peer_views()[j] by {
                if dv.contains(old(self).peer_views()[j].room) {
                    let x = choose|x: int| 0 <= x < dv.len() && dv[x] == old(self).peer_views()[j].room;
                    lemma_due_rooms_origin(pv, now, x);
                }
            }
        }
        actions
    }

    /// Where a frame from `origin` goes (see `forward_plan`); nowhere where
    /// `origin` is not a peer.
    pub fn forward_targets(
        &self,
        origin: ParticipantId,
        mid: &String,
        is_audio: bool,
        is_video: bool,
        rid: &Option<String>,
    ) -> (r: Vec<(ParticipantId, String)>)
        requires
            self.wf(),
        ensures
            has_key(id_pairs(self.peer_views()), origin) ==> targets_view(r@) == forward_plan(
                self.peer_views(),
                self.peer_views()[key_pos(id_pairs(self.peer_views()), origin)],
                self.preferences(),
                mid@,
                is_audio,
                is_video,
                opt_str_view(*rid),
            ),
            !has_key(id_pairs(self.peer_views()), origin) ==> r@.len() == 0,
    {
        let oi = match self.find_peer(origin) {
            Some(oi) => oi,
            None => {
                let v: Vec<(ParticipantId, String)> = Vec::new();
                return v;
            },
        };
        let ghost ps = self.peer_views();
        let ghost o = ps[oi as int];
        let ghost prefs = self.preferences();
        let ghost ridv = opt_str_view(*rid);
        proof {
            assert(id_pairs(ps)[oi as int].0 == origin);
        }
        let low = String::from_str("low");
        let medium = String::from_str("medium");
        let high = String::from_str("high");
        let q = String::from_str("q");
        let f = String::from_str("f");
        let mut r: Vec<(ParticipantId, String)> = Vec::new();
        let mut i: usize = 0;
        while i < self.peers.len()
            invariant
                i <= self.peers@.len(),
                oi < self.peers@.len(),
                ps == self.peer_views(),
                o == ps[oi as int],
                o.id == origin,
                prefs == self.preferences(),
                ridv == opt_str_view(*rid),
                peers_wf(ps),
                low@ == "low"@,
                medium@ == "medium"@,
                high@ == "high"@,
                q@ == "q"@,
                f@ == "f"@,
                targets_view(r@) == forward_plan(ps.take(i as int), o, prefs, mid@, is_audio, is_video, ridv),
            decreases self.peers@.len() - i,
        {
            let t = &self.peers[i];
            let origin_peer = &self.peers[oi];
            proof {
                assert(ps.take(i + 1).drop_last() =~= ps.take(i as int));
                assert(ps.take(i + 1).last() == t@);
                assert(peer_wf(ps[i as int]));
            }
            let mut skip = t.id == origin_peer.id || !t.room_id.same_room(&origin_peer.room_id);
            if !skip && origin_peer.is_pipe_transport && t.is_pipe_transport {
                let same_remote = match (&t.pipe_remote_did, &origin_peer.pipe_remote_did) {
                    (Some(a), Some(b)) => *a == *b,
                    (None, None) => true,
                    _ => false,
                };
                skip = same_remote;
            }
            if !skip && is_video {
                match rid {
                    Some(layer) => {
                        let pref = match self.quality_preferences.get(&t.id.value) {
                            Some(p) => p.clone(),
                            None => high.clone(),
                        };
                        proof {
                            assert(pref@ == preference_of(prefs, t.id));
                        }
                        skip = if pref == low {
                            !(*layer == low) && !(*layer == q)
                        } else if pref == medium {
                            *layer == high || *layer == f
                        } else {
                            false
                        };
                    },
                    None => {},
                }
            }
            if !skip {
                match t.target_mid(origin, mid, is_audio) {
                    Some(m) => {
                        let ghost prev = r@;
                        let e = (t.id, m);
                        r.push(e);
                        proof {
                            assert(r@ == prev.push(e));
                            assert(targets_view(r@) =~= targets_view(prev).push((t.id, m@)));
                        }
                    },
                    None => {},
                }
            }
            proof {
                assert(origin == o.id);
                assert(targets_view(r@) == forward_plan(ps.take(i + 1), o, prefs, mid@, is_audio, is_video, ridv));
            }
            i = i + 1;
        }
        proof {
            assert(ps.take(i as int) =~= ps);
        }
        r
    }

    /// Writes a frame to the `i`-th peer's track `mid`, where its connection
    /// can write to that track.
    fn write_media(&mut self, i: usize, mid: &String, data: &MediaData) -> (written: bool)
        requires
            i < old(self).peers@.len(),
        ensures
            final(self).peers@.len() == old(self).peers@.len(),
            forall|x: int| 0 <= x < old(self).peers@.len() ==> #[trigger] final(self).peers@[x]@ == old(self).peers@[x]@,
            final(self).relay == old(self).relay,
            final(self).quality_preferences == old(self).quality_preferences,
            final(self).pending_renegotiations == old(self).pending_renegotiations,
            final(self).logs() == old(self).logs().update(
                i as int,
                if written {
                    old(self).logs()[i as int].push(ConnectionEvent::Write(mid@))
                } else {
                    old(self).logs()[i as int]
                },
            ),
            forall|x: int| 0 <= x < old(self).peers@.len() && x != i ==> #[trigger] final(self).peers@[x] == old(self).peers@[x],
    {
        let ghost pre = self.peers@;
        let written = match rtc_write(&mut self.peers[i].rtc, mid, data) {
            Some(_) => true,
            None => false,
        };
        proof {
            assert(self.logs() =~= old(self).logs().update(
                i as int,
                if written {
                    old(self).logs()[i as int].push(ConnectionEvent::Write(mid@))
                } else {
                    old(self).logs()[i as int]
                },
            ));
            let a = self.peers@[i as int];
            let b = pre[i as int];
            assert(a.id == b.id && a.room_id == b.room_id && a.agent_did == b.agent_did);
            assert(a.tracks_in == b.tracks_in && a.tracks_out == b.tracks_out);
            assert(a.outgoing_tracks == b.outgoing_tracks && a.pending_offer == b.pending_offer);
            assert(a@ == b@);
            assert forall|x: int| 0 <= x < pre.len() implies #[trigger] self.peers@[x]@ == pre[x]@ by {
                if x != i {
                    assert(self.peers@[x] == pre[x]);
                }
            }
        }
        written
    }

    /// Relays a frame that `origin` sent us (media id `mid`, audio or video,
    /// simulcast layer `rid`) to the other peers of its room: audio updates
    /// the origin's voice activity with its smoothed level key `level` at
    /// `now`, then the frame is written to each target of `forward_targets`
    /// on its media id, once. Returns the targets and, for each, whether its
    /// connection gave a writer, so that a write was made. A frame from a
    /// peer that is gone is dropped.
    pub fn relay_media(
        &mut self,
        origin: ParticipantId,
        mid: &String,
        is_audio: bool,
        is_video: bool,
        rid: &Option<String>,
        level: u64,
        data: &MediaData,
        now: u64,
    ) -> (r: (Vec<(ParticipantId, String)>, Vec<bool>))
        requires
            old(self).wf(),
        ensures
            final(self).wf(),
            final(self).peer_views() == old(self).peer_views(),
            final(self).preferences() == old(self).preferences(),
            final(self).pending() == old(self).pending(),
            has_key(id_pairs(old(self).peer_views()), origin) && is_audio ==> relay_after_audio(
                old(self).relay(),
                final(self).relay(),
                origin,
                level,
                now,
            ),
            !(has_key(id_pairs(old(self).peer_views()), origin) && is_audio) ==> final(self).relay() == old(
                self,
            ).relay(),
            r.1@.len() == r.0@.len(),
            forall|k: int| 0 <= k < r.0@.len() ==> has_key(id_pairs(old(self).peer_views()), (#[trigger] r.0@[k]).0),
            forall|a: int, b: int| 0 <= a < b < r.0@.len() ==> (#[trigger] r.0@[a]).0 != (#[trigger] r.0@[b]).0,
            has_key(id_pairs(old(self).peer_views()), origin) ==> targets_view(r.0@) == forward_plan(
                old(self).peer_views(),
                old(self).peer_views()[key_pos(id_pairs(old(self).peer_views()), origin)],
                old(self).preferences(),
                mid@,
                is_audio,
                is_video,
                opt_str_view(*rid),
            ),
            !has_key(id_pairs(old(self).peer_views()), origin) ==> r.0@.len() == 0,
            final(self).logs().len() == old(self).logs().len(),
            forall|k: int|
                0 <= k < r.0@.len() ==> #[trigger] final(self).logs()[key_pos(id_pairs(old(self).peer_views()), r.0@[k].0)] == (
                if r.1@[k] {
                    old(self).logs()[key_pos(id_pairs(old(self).peer_views()), r.0@[k].0)].push(ConnectionEvent::Write(r.0@[k].1@))
                } else {
                    old(self).logs()[key_pos(id_pairs(old(self).peer_views()), r.0@[k].0)]
                }),
            forall|j: int|
                0 <= j < old(self).logs().len() && (forall|k: int| 0 <= k < r.0@.len() ==> (#[trigger] r.0@[k]).0 != old(self).peer_views()[j].id)
                    ==> #[trigger] final(self).logs()[j] == old(self).logs()[j],
            forall|j: int|
                0 <= j < old(self).logs().len() && #[trigger] final(self).logs()[j] != old(self).logs()[j] ==> (has_key(
                    id_pairs(old(self).peer_views()),
                    origin,
                ) && (forward_mid(
                    old(self).peer_views()[key_pos(id_pairs(old(self).peer_views()), origin)],
                    old(self).peer_views()[j],
                    old(self).preferences(),
                    mid@,
                    is_audio,
                    is_video,
                    opt_str_view(*rid),
                ) matches Some(m) && final(self).logs()[j] == old(self).logs()[j].push(ConnectionEvent::Write(m)))),
    {
        match self.find_peer(origin) {
            Some(oi) => {
                proof {
                    assert(id_pairs(self.peer_views())[oi as int].0 == origin);
                }
            },
            None => {
                return (Vec::new(), Vec::new());
            },
        }
        if is_audio {
            self.relay.update_voice_activity(&origin, MediaKind::Audio, level, now);
        }
        let targets = self.forward_targets(origin, mid, is_audio, is_video, rid);
        let ghost ps = self.peer_views();
        let ghost relay = self.relay();
        proof {
            let o = ps[key_pos(id_pairs(ps), origin)];
            lemma_forward_plan(ps, o, self.preferences(), mid@, is_audio, is_video, opt_str_view(*rid));
            lemma_forward_plan_once(ps, o, self.preferences(), mid@, is_audio, is_video, opt_str_view(*rid));
            assert forall|a: int, b: int| 0 <= a < b < targets@.len() implies (#[trigger] targets@[a]).0
                != (#[trigger] targets@[b]).0 by {
                assert(targets_view(targets@)[a].0 == targets@[a].0);
                assert(targets_view(targets@)[b].0 == targets@[b].0);
            }
            assert forall|k: int| 0 <= k < targets@.len() implies has_key(id_pairs(ps), (#[trigger] targets@[k]).0) by {
                assert(targets_view(targets@)[k].0 == targets@[k].0);
                let j = choose|j: int|
                    0 <= j < ps.len() && ps[j].id == (#[trigger] forward_plan(ps, o, self.preferences(), mid@, is_audio, is_video, opt_str_view(*rid))[k]).0
                        && ps[j].id != o.id && ps[j].room == o.room && forward_mid(o, ps[j], self.preferences(), mid@, is_audio, is_video, opt_str_view(*rid))
                        == Some(forward_plan(ps, o, self.preferences(), mid@, is_audio, is_video, opt_str_view(*rid))[k].1);
                assert(id_pairs(ps)[j].0 == targets@[k].0);
            }
        }
        let ghost lg0 = self.logs();
        proof {
            assert(lg0 == old(self).logs());
        }
        let mut written: Vec<bool> = Vec::new();
        let mut k: usize = 0;
        while k < targets.len()
            invariant
                k <= targets@.len(),
                self.peers@.len() == ps.len(),
                forall|x: int| 0 <= x < ps.len() ==> #[trigger] self.peers@[x]@ == ps[x],
                ps == old(self).peer_views(),
                self.relay() == relay,
                relay.wf(),
                self.quality_preferences == old(self).quality_preferences,
                self.pending_renegotiations == old(self).pending_renegotiations,
                old(self).wf(),
                written@.len() == k,
                lg0.len() == ps.len(),
                self.logs().len() == ps.len(),
                forall|a: int, b: int| 0 <= a < b < targets@.len() ==> (#[trigger] targets@[a]).0 != (#[trigger] targets@[b]).0,
                forall|x: int| 0 <= x < targets@.len() ==> has_key(id_pairs(ps), (#[trigger] targets@[x]).0),
                forall|x: int|
                    0 <= x < k ==> #[trigger] self.logs()[key_pos(id_pairs(ps), targets@[x].0)] == (if written@[x] {
                        lg0[key_pos(id_pairs(ps), targets@[x].0)].push(ConnectionEvent::Write(targets@[x].1@))
                    } else {
                        lg0[key_pos(id_pairs(ps), targets@[x].0)]
                    }),
                forall|j: int|
                    0 <= j < ps.len() && (forall|x: int| 0 <= x < k ==> (#[trigger] targets@[x]).0 != ps[j].id) ==> #[trigger] self.logs()[j]
                        == lg0[j],
            decreases targets@.len() - k,
        {
            proof {
                assert(self.peer_views() =~= ps);
            }
            let ghost lg1 = self.logs();
            let ghost prev_w = written@;
            let w = match self.find_peer(targets[k].0) {
                Some(j) => self.write_media(j, &targets[k].1, data),
                None => false,
            };
            written.push(w);
            proof {
                let jk = key_pos(id_pairs(ps), targets@[k as int].0);
                assert(has_key(id_pairs(ps), targets@[k as int].0));
                assert(0 <= jk < ps.len() && id_pairs(ps)[jk].0 == targets@[k as int].0);
                assert(ps[jk].id == targets@[k as int].0);
                assert(self.logs() == lg1.update(jk, if w { lg1[jk].push(ConnectionEvent::Write(targets@[k as int].1@)) } else { lg1[jk] }));
                assert(written@ == prev_w.push(w));
                assert forall|x: int| 0 <= x < k + 1 implies #[trigger] self.logs()[key_pos(id_pairs(ps), targets@[x].0)] == (if written@[x] {
                    lg0[key_pos(id_pairs(ps), targets@[x].0)].push(ConnectionEvent::Write(targets@[x].1@))
                } else {
                    lg0[key_pos(id_pairs(ps), targets@[x].0)]
                }) by {
                    let jx = key_pos(id_pairs(ps), targets@[x].0);
                    assert(0 <= jx < ps.len() && id_pairs(ps)[jx].0 == targets@[x].0);
                    if x < k {
                        assert(targets@[x].0 != targets@[k as int].0);
                        assert(jx != jk);
                        assert(written@[x] == prev_w[x]);
                    } else {
                        assert(lg1[jk] == lg0[jk]) by {
                            assert forall|y: int| 0 <= y < k implies (#[trigger] targets@[y]).0 != ps[jk].id by {
                                assert(targets@[y].0 != targets@[k as int].0);
                            }
                        }
                    }
                }
                assert forall|j: int|
                    0 <= j < ps.len() && (forall|x: int| 0 <= x < k + 1 ==> (#[trigger] targets@[x]).0 != ps[j].id) implies #[trigger] self.logs()[j]
                        == lg0[j] by {
                    assert(targets@[k as int].0 != ps[j].id);
                    assert(j != jk);
                    assert forall|x: int| 0 <= x < k implies (#[trigger] targets@[x]).0 != ps[j].id by {}
                }
            }
            k = k + 1;
        }
        proof {
            assert(self.peer_views() =~= ps);
            assert forall|j: int|
                0 <= j < old(self).logs().len() && (forall|x: int| 0 <= x < targets@.len() ==> (#[trigger] targets@[x]).0
                    != old(self).peer_views()[j].id) implies #[trigger] self.logs()[j] == old(self).logs()[j] by {
                assert forall|x: int| 0 <= x < k implies (#[trigger] targets@[x]).0 != ps[j].id by {}
            }
        }
        let r = (targets, written);
        proof {
            assert(r.0@ == targets@);
            assert(forall|j: int|
                0 <= j < old(self).logs().len() && (forall|x: int| 0 <= x < r.0@.len() ==> (#[trigger] r.0@[x]).0
                    != old(self).peer_views()[j].id) ==> #[trigger] self.logs()[j] == old(self).logs()[j]);
            let o = ps[key_pos(id_pairs(ps), origin)];
            let tv = targets_view(targets@);
            assert forall|x: int| 0 <= x < tv.len() implies #[trigger] self.logs()[key_pos(id_pairs(ps), tv[x].0)] == (
            if written@[x] {
                lg0[key_pos(id_pairs(ps), tv[x].0)].push(ConnectionEvent::Write(tv[x].1))
            } else {
                lg0[key_pos(id_pairs(ps), tv[x].0)]
            }) by {
                assert(tv[x] == (targets@[x].0, targets@[x].1@));
            }
            assert forall|j: int| 0 <= j < ps.len() && (forall|x: int| 0 <= x < tv.len() ==> (#[trigger] tv[x]).0 != ps[j].id)
                implies #[trigger] self.logs()[j] == lg0[j] by {
                assert forall|x: int| 0 <= x < targets@.len() implies (#[trigger] targets@[x]).0 != ps[j].id by {
                    assert(tv[x].0 == targets@[x].0);
                }
            }
            lemma_changed_logs_follow_plan(
                ps,
                o,
                self.preferences(),
                mid@,
                is_audio,
                is_video,
                opt_str_view(*rid),
                written@,
                lg0,
                self.logs(),
            );
        }
        r
    }

    /// Where a keyframe request of `requester` for its track `mid` goes.
    pub fn keyframe_source(&self, requester: ParticipantId, mid: &String) -> (r: Option<(ParticipantId, String)>)
        requires
            self.wf(),
        ensures
            match r {
                Some((p, m)) => keyframe_route(self.peer_views(), requester, mid@) == Some((p, m@)),
                None => keyframe_route(self.peer_views(), requester, mid@) is None,
            },
    {
        match self.find_peer(requester) {
            Some(i) => {
                proof {
                    assert(id_pairs(self.peer_views())[i as int].0 == requester);
                    assert(peer_wf(self.peer_views()[i as int]));
                }
                self.peers[i].track_source(mid)
            },
            None => None,
        }
    }

    /// A peer asked for a keyframe of its track `mid`: the request goes to
    /// the peer and track that track carries.
    pub fn route_keyframe_request(&mut self, requester: ParticipantId, mid: &String) -> (r: Option<
        (ParticipantId, String),
    >)
        requires
            old(self).wf(),
        ensures
            final(self).wf(),
            final(self).peer_views() == old(self).peer_views(),
            final(self).relay() == old(self).relay(),
            final(self).preferences() == old(self).preferences(),
            final(self).pending() == old(self).pending(),
            match r {
                Some((p, m)) => keyframe_route(old(self).peer_views(), requester, mid@) == Some((p, m@)),
                None => keyframe_route(old(self).peer_views(), requester, mid@) is None,
            },
            final(self).logs().len() == old(self).logs().len(),
            match r {
                Some((p, m)) => {
                    let j = key_pos(id_pairs(old(self).peer_views()), p);
                    &&& has_key(id_pairs(old(self).peer_views()), p) ==> (final(self).logs() == old(self).logs()
                        || final(self).logs() == old(self).logs().update(
                        j,
                        old(self).logs()[j].push(ConnectionEvent::KeyframeRequest(m@)),
                    ))
                    &&& !has_key(id_pairs(old(self).peer_views()), p) ==> final(self).logs() == old(self).logs()
                },
                None => final(self).logs() == old(self).logs(),
            },
    {
        let source = self.keyframe_source(requester, mid);
        match &source {
            Some((origin, origin_mid)) => match self.find_peer(*origin) {
                Some(j) => {
                    let asked = self.request_keyframe(j, origin_mid);
                    proof {
                        assert(self.peer_views() =~= old(self).peer_views());
                        assert(id_pairs(old(self).peer_views())[j as int].0 == *origin);
                        assert(j as int == key_pos(id_pairs(old(self).peer_views()), *origin));
                        if !asked {
                            assert(self.logs() =~= old(self).logs());
                        } else {
                            assert(self.logs() == old(self).logs().update(
                                j as int,
                                old(self).logs()[j as int].push(ConnectionEvent::KeyframeRequest(origin_mid@)),
                            ));
                        }
                    }
                },
                None => {},
            },
            None => {},
        }
        source
    }

    /// Handles one command at `now` and says what to publish and what to
    /// answer; each command does what the method of the same name does.
    pub fn handle_command(&mut self, cmd: SfuCommand, now: u64) -> (r: (Vec<SfuAction>, CommandReply))
        requires
            old(self).wf(),
            cmd matches SfuCommand::AddPeer(p) ==> peer_wf(p@),
            now <= u64::MAX - RENEGOTIATION_DELAY_MS,
        ensures
            final(self).wf(),
            cmd matches SfuCommand::AddPeer(p) ==> r.1 is Done && joined(*old(self), *final(self), p@, now, actions_view(r.0@))
                && final(self).logs() == if has_key(id_pairs(old(self).peer_views()), p@.id) {
                old(self).logs().update(key_pos(id_pairs(old(self).peer_views()), p@.id), p.rtc.log())
            } else {
                old(self).logs().push(p.rtc.log())
            },
            cmd matches SfuCommand::RemovePeer(pid) ==> r.1 is Done && departed(*old(self), *final(self), pid, now, actions_view(r.0@))
                && logs_after_departure(*old(self), *final(self), pid) && batches_after_departure(*old(self), *final(self), pid),
            cmd matches SfuCommand::SetQualityPreference { participant_id, preference } ==> r.1 is Done && r.0@.len() == 0
                && preference_set(*old(self), *final(self), participant_id, preference@),
            cmd matches SfuCommand::RenegotiatePeer { agent_did, room_id, .. } ==> r.0@.len() == 0 && (r.1 matches CommandReply::Answer(a)
                && peer_renegotiated(*old(self), *final(self), agent_did@, room_id@, a)),
            cmd matches SfuCommand::AnswerServerOffer { agent_did, room_id, .. } ==> r.0@.len() == 0 && (r.1 matches CommandReply::Accepted(a)
                && offer_answered(*old(self), *final(self), agent_did@, room_id@, a)),
            cmd is Shutdown ==> r.1 is Shutdown && r.0@.len() == 0 && *final(self) == *old(self),
    {
        match cmd {
            SfuCommand::AddPeer(peer) => (self.add_peer(peer, now), CommandReply::Done),
            SfuCommand::RemovePeer(pid) => (self.remove_peer(pid, now), CommandReply::Done),
            SfuCommand::SetQualityPreference { participant_id, preference } => {
                self.set_quality_preference(participant_id, preference);
                (Vec::new(), CommandReply::Done)
            },
            SfuCommand::RenegotiatePeer { agent_did, room_id, sdp_offer } => {
                let r = self.renegotiate_peer(&agent_did, &room_id, sdp_offer);
                (Vec::new(), CommandReply::Answer(r))
            },
            SfuCommand::AnswerServerOffer { agent_did, room_id, sdp_answer } => {
                let r = self.answer_server_offer(&agent_did, &room_id, sdp_answer);
                (Vec::new(), CommandReply::Accepted(r))
            },
            SfuCommand::Shutdown => (Vec::new(), CommandReply::Shutdown),
        }
    }
}

/// Dropping due entries keeps keys distinct.
pub proof fn lemma_not_due_distinct(s: Seq<((Seq<char>, Seq<char>), u64)>, now: u64)
    requires
        keys_distinct(s),
    ensures
        keys_distinct(not_due(s, now)),
        forall|i: int| 0 <= i < not_due(s, now).len() ==> s.contains(#[trigger] not_due(s, now)[i]),
    decreases s.len(),
{
    if s.len() > 0 {
        let init = s.drop_last();
        assert forall|i: int, j: int|
            0 <= i < init.len() && 0 <= j < init.len() && i != j implies init[i].0 != init[j].0 by {
            assert(init[i] == s[i] && init[j] == s[j]);
        }
        lemma_not_due_distinct(init, now);
        let rest = not_due(init, now);
        let r = not_due(s, now);
        let last = s.len() - 1;
        assert(s[last] == s.last());
        assert forall|i: int| 0 <= i < rest.len() implies s.contains(#[trigger] rest[i]) by {
            let x = choose|x: int| 0 <= x < init.len() && init[x] == rest[i];
            assert(s[x] == init[x]);
        }
        if now < s.last().1 {
            assert(r == rest.push(s.last()));
            assert forall|i: int| 0 <= i < rest.len() implies rest[i].0 != s.last().0 by {
                let x = choose|x: int| 0 <= x < init.len() && init[x] == rest[i];
                assert(s[x] == init[x]);
            }
            assert forall|i: int, j: int| 0 <= i < r.len() && 0 <= j < r.len() && i != j implies r[i].0
                != r[j].0 by {
                if i < rest.len() && j < rest.len() {
                    assert(r[i] == rest[i] && r[j] == rest[j]);
                } else if i < rest.len() {
                    assert(r[i] == rest[i]);
                } else {
                    assert(r[j] == rest[j]);
                }
            }
            assert forall|i: int| 0 <= i < r.len() implies s.contains(#[trigger] r[i]) by {
                if i < rest.len() {
                    assert(r[i] == rest[i]);
                } else {
                    assert(s[last] == r[i]);
                }
            }
        }
    }
}

/// A track source that `out_without` dropped is gone from the table.
proof fn lemma_mids_from_without(s: Seq<(Seq<char>, (ParticipantId, Seq<char>))>, source: ParticipantId)
    ensures
        mids_from(out_without(s, source), source).len() == 0,
    decreases s.len(),
{
    if s.len() > 0 {
        lemma_mids_from_without(s.drop_last(), source);
        let rest = out_without(s.drop_last(), source);
        if s.last().1.0 != source {
            let r = rest.push(s.last());
            assert(r.drop_last() =~= rest);
        }
    }
}

/// After a peer leaves, no participant of its room still receives a track
/// from it.
pub proof fn lemma_departure_forgets(gone: PeerView, rest: Seq<PeerView>, fin: Seq<PeerView>)
    requires
        fin.len() == rest.len(),
        forall|j: int|
            0 <= j < rest.len() ==> if affected_by_departure(rest[j], gone) {
                routing_of(#[trigger] fin[j]) == routing_of(without_source(rest[j], gone.id))
            } else {
                fin[j] == rest[j]
            },
    ensures
        forall|j: int|
            0 <= j < fin.len() && fin[j].room == gone.room && !fin[j].is_pipe_transport ==> mids_from(
                (#[trigger] fin[j]).tracks_out,
                gone.id,
            ).len() == 0,
{
    assert forall|j: int|
        0 <= j < fin.len() && fin[j].room == gone.room && !fin[j].is_pipe_transport implies mids_from(
        (#[trigger] fin[j]).tracks_out,
        gone.id,
    ).len() == 0 by {
        if affected_by_departure(rest[j], gone) {
            assert(routing_of(fin[j]).tracks_out == routing_of(without_source(rest[j], gone.id)).tracks_out);
            lemma_mids_from_without(rest[j].tracks_out, gone.id);
        }
    }
}

/// A frame goes only to other peers of its sender's room, each on a media
/// id that `forward_mid` gives, and to every peer for which it gives one.
pub proof fn lemma_forward_plan(
    ps: Seq<PeerView>,
    o: PeerView,
    prefs: Map<u64, Seq<char>>,
    mid: Seq<char>,
    is_audio: bool,
    is_video: bool,
    rid: Option<Seq<char>>,
)
    ensures
        forall|k: int|
            0 <= k < forward_plan(ps, o, prefs, mid, is_audio, is_video, rid).len() ==> exists|j: int|
                0 <= j < ps.len() && ps[j].id == (#[trigger] forward_plan(ps, o, prefs, mid, is_audio, is_video, rid)[k]).0
                    && ps[j].id != o.id && ps[j].room == o.room && forward_mid(o, ps[j], prefs, mid, is_audio, is_video, rid)
                    == Some(forward_plan(ps, o, prefs, mid, is_audio, is_video, rid)[k].1),
        forall|j: int|
            0 <= j < ps.len() && (#[trigger] forward_mid(o, ps[j], prefs, mid, is_audio, is_video, rid)) is Some
                ==> forward_plan(ps, o, prefs, mid, is_audio, is_video, rid).contains(
                (ps[j].id, forward_mid(o, ps[j], prefs, mid, is_audio, is_video, rid)->0),
            ),
    decreases ps.len(),
{
    if ps.len() > 0 {
        let init = ps.drop_last();
        lemma_forward_plan(init, o, prefs, mid, is_audio, is_video, rid);
        let r = forward_plan(init, o, prefs, mid, is_audio, is_video, rid);
        let plan = forward_plan(ps, o, prefs, mid, is_audio, is_video, rid);
        let n = ps.len() - 1;
        assert(ps[n] == ps.last());
        assert forall|k: int| 0 <= k < plan.len() implies exists|j: int|
            0 <= j < ps.len() && ps[j].id == (#[trigger] plan[k]).0 && ps[j].id != o.id && ps[j].room == o.room
                && forward_mid(o, ps[j], prefs, mid, is_audio, is_video, rid) == Some(plan[k].1) by {
            if k < r.len() {
                assert(plan[k] == r[k]);
                let j = choose|j: int|
                    0 <= j < init.len() && init[j].id == (#[trigger] r[k]).0 && init[j].id != o.id && init[j].room
                        == o.room && forward_mid(o, init[j], prefs, mid, is_audio, is_video, rid) == Some(r[k].1);
                assert(init[j] == ps[j]);
            } else {
                assert(plan[k] == (ps[n].id, forward_mid(o, ps[n], prefs, mid, is_audio, is_video, rid)->0));
            }
        }
        assert forall|j: int|
            0 <= j < ps.len() && (#[trigger] forward_mid(o, ps[j], prefs, mid, is_audio, is_video, rid)) is Some
                implies plan.contains((ps[j].id, forward_mid(o, ps[j], prefs, mid, is_audio, is_video, rid)->0)) by {
            let e = (ps[j].id, forward_mid(o, ps[j], prefs, mid, is_audio, is_video, rid)->0);
            if j < n {
                assert(init[j] == ps[j]);
                assert(forward_mid(o, init[j], prefs, mid, is_audio, is_video, rid) is Some);
                assert(r.contains(e));
                let x = choose|x: int| 0 <= x < r.len() && r[x] == e;
                assert(plan[x] == r[x]);
            } else {
                assert(plan[plan.len() - 1] == e);
            }
        }
    }
}

/// Every peer of `room` receives every track that the room's other
/// participants send.
pub open spec fn room_complete(ps: Seq<PeerView>, room: (Seq<char>, Seq<char>)) -> bool {
    forall|j: int|
        0 <= j < ps.len() && ps[j].room == room ==> missing_tracks(
            (#[trigger] ps[j]).id,
            ps[j].outgoing,
            room_sources(ps, room),
        ).len() == 0
}

/// The sources of a room read only ids, rooms, DIDs and sent tracks.
proof fn lemma_room_sources_same(ps: Seq<PeerView>, qs: Seq<PeerView>, room: (Seq<char>, Seq<char>))
    requires
        ps.len() == qs.len(),
        forall|j: int|
            0 <= j < ps.len() ==> (#[trigger] qs[j]).id == ps[j].id && qs[j].room == ps[j].room && qs[j].agent_did
                == ps[j].agent_did && qs[j].tracks_in == ps[j].tracks_in,
    ensures
        room_sources(qs, room) == room_sources(ps, room),
    decreases ps.len(),
{
    if ps.len() > 0 {
        let n = ps.len() - 1;
        assert forall|j: int| 0 <= j < n implies (#[trigger] qs.drop_last()[j]).id == ps.drop_last()[j].id
            && qs.drop_last()[j].room == ps.drop_last()[j].room && qs.drop_last()[j].agent_did
            == ps.drop_last()[j].agent_did && qs.drop_last()[j].tracks_in == ps.drop_last()[j].tracks_in by {
            assert(qs[j].id == ps[j].id);
        }
        lemma_room_sources_same(ps.drop_last(), qs.drop_last(), room);
        assert(qs[n].id == ps[n].id);
    }
}

/// Renegotiating a room leaves each of its peers lacking nothing, keeps
/// the sources of every room, and keeps every other room as complete as it
/// was.
pub proof fn lemma_room_renegotiated(ps: Seq<PeerView>, qs: Seq<PeerView>, room: (Seq<char>, Seq<char>))
    requires
        peers_wf(ps),
        qs.len() == ps.len(),
        forall|j: int|
            0 <= j < ps.len() ==> if ps[j].room == room {
                renegotiated(ps[j], #[trigger] qs[j], room_sources(ps, room))
            } else {
                qs[j] == ps[j]
            },
    ensures
        room_complete(qs, room),
        forall|r: (Seq<char>, Seq<char>)| #[trigger] room_sources(qs, r) == room_sources(ps, r),
        forall|r: (Seq<char>, Seq<char>)| r != room && room_complete(ps, r) ==> #[trigger] room_complete(qs, r),
        forall|j: int|
            0 <= j < ps.len() ==> (#[trigger] qs[j]).id == ps[j].id && qs[j].room == ps[j].room && qs[j].agent_did
                == ps[j].agent_did && qs[j].tracks_in == ps[j].tracks_in,
{
    assert forall|j: int| 0 <= j < ps.len() implies (#[trigger] qs[j]).id == ps[j].id && qs[j].room == ps[j].room
        && qs[j].agent_did == ps[j].agent_did && qs[j].tracks_in == ps[j].tracks_in by {
        if ps[j].room == room {
            assert(renegotiated(ps[j], qs[j], room_sources(ps, room)));
        }
    }
    assert forall|r: (Seq<char>, Seq<char>)| #[trigger] room_sources(qs, r) == room_sources(ps, r) by {
        lemma_room_sources_same(ps, qs, r);
    }
    assert forall|j: int| 0 <= j < qs.len() && qs[j].room == room implies missing_tracks(
        (#[trigger] qs[j]).id,
        qs[j].outgoing,
        room_sources(qs, room),
    ).len() == 0 by {
        assert(peer_wf(ps[j]));
        assert(renegotiated(ps[j], qs[j], room_sources(ps, room)));
        lemma_renegotiated_lacks_nothing(ps[j], qs[j], room_sources(ps, room));
    }
    assert forall|r: (Seq<char>, Seq<char>)| r != room && room_complete(ps, r) implies #[trigger] room_complete(qs, r) by {
        assert forall|j: int| 0 <= j < qs.len() && qs[j].room == r implies missing_tracks(
            (#[trigger] qs[j]).id,
            qs[j].outgoing,
            room_sources(qs, r),
        ).len() == 0 by {
            assert(qs[j] == ps[j]);
            assert(room_sources(qs, r) == room_sources(ps, r));
        }
    }
}

pub open spec fn rooms_view(s: Seq<RoomId>) -> Seq<(Seq<char>, Seq<char>)> {
    s.map_values(|r: RoomId| r@)
}

/// The rooms of the pending renegotiations that are due at `now`, in
/// order.
pub open spec fn due_rooms(s: Seq<((Seq<char>, Seq<char>), u64)>, now: u64) -> Seq<(Seq<char>, Seq<char>)>
    decreases s.len(),
{
    if s.len() == 0 {
        seq![]
    } else {
        let r = due_rooms(s.drop_last(), now);
        if now >= s.last().1 {
            r.push(s.last().0)
        } else {
            r
        }
    }
}

/// Every due entry's room is among the due rooms.
proof fn lemma_due_rooms(s: Seq<((Seq<char>, Seq<char>), u64)>, now: u64, e: int)
    requires
        0 <= e < s.len(),
        now >= s[e].1,
    ensures
        due_rooms(s, now).contains(s[e].0),
    decreases s.len(),
{
    let n = s.len() - 1;
    let r = due_rooms(s.drop_last(), now);
    if e < n {
        assert(s.drop_last()[e] == s[e]);
        lemma_due_rooms(s.drop_last(), now, e);
        let x = choose|x: int| 0 <= x < r.len() && r[x] == s[e].0;
        if now >= s.last().1 {
            assert(due_rooms(s, now)[x] == r[x]);
        }
    } else {
        assert(s.last() == s[e]);
        assert(due_rooms(s, now)[r.len() as int] == s[e].0);
    }
}

/// Every due room is the room of a due entry.
proof fn lemma_due_rooms_origin(s: Seq<((Seq<char>, Seq<char>), u64)>, now: u64, x: int)
    requires
        0 <= x < due_rooms(s, now).len(),
    ensures
        exists|e: int| 0 <= e < s.len() && now >= s[e].1 && s[e].0 == due_rooms(s, now)[x],
    decreases s.len(),
{
    let n = s.len() - 1;
    let r = due_rooms(s.drop_last(), now);
    if x < r.len() {
        lemma_due_rooms_origin(s.drop_last(), now, x);
        let e = choose|e: int| 0 <= e < s.drop_last().len() && now >= s.drop_last()[e].1 && s.drop_last()[e].0 == r[x];
        assert(s[e] == s.drop_last()[e]);
        if now >= s.last().1 {
            assert(due_rooms(s, now)[x] == r[x]);
        }
    } else {
        assert(s[n] == s.last());
    }
}

/// `kept_peers` holds at most as many peers as it reads.
proof fn lemma_kept_peers_len(ps: Seq<PeerView>, keep: Seq<bool>)
    ensures
        kept_peers(ps, keep).len() <= ps.len(),
    decreases ps.len(),
{
    if ps.len() > 0 && keep.len() > 0 {
        lemma_kept_peers_len(ps.drop_last(), keep.drop_last());
    }
}

/// Removing one more participant from the relay extends what it forgot.
proof fn lemma_relay_drop_step(
    r0: MediaRelay,
    rb: MediaRelay,
    ra: MediaRelay,
    dropped: Seq<ParticipantId>,
    pid: ParticipantId,
    now: u64,
)
    requires
        relay_after_drops(r0, rb, dropped),
        crate::relay::relay_after_removal(rb, ra, pid, now),
        ra.wf(),
    ensures
        relay_after_drops(r0, ra, dropped.push(pid)),
{
    let nd = dropped.push(pid);
    assert forall|q: ParticipantId| nd.contains(q) <==> (dropped.contains(q) || q == pid) by {
        if nd.contains(q) {
            let k = choose|k: int| 0 <= k < nd.len() && nd[k] == q;
            if k < dropped.len() {
                assert(dropped[k] == q);
            }
        }
        if dropped.contains(q) {
            let k = choose|k: int| 0 <= k < dropped.len() && dropped[k] == q;
            assert(nd[k] == q);
        }
        if q == pid {
            assert(nd[dropped.len() as int] == q);
        }
    }
    crate::relay::lemma_removed_is_silent(rb, ra, pid, now);
    assert forall|q: ParticipantId| #[trigger] ra.pipe_ids().contains(q.value) == (r0.pipe_ids().contains(q.value) && !nd.contains(q)) by {
        assert(rb.pipe_ids().contains(q.value) == (r0.pipe_ids().contains(q.value) && !dropped.contains(q)));
        if q.value == pid.value {
            assert(q == pid);
        }
    }
    if ra.speaker() is Some {
        let s = ra.speaker()->0;
        if rb.speaker() == Some(pid) {
            let v = ra.voices();
            crate::relay::lemma_best_speaker_is_loudest(v, now);
            let b = crate::relay::best_speaker(v, now)->0;
            let k = choose|k: int|
                0 <= k < v.len() && v[k].0 == b.0 && v[k].1.level == b.1 && crate::relay::is_eligible(#[trigger] v[k].1, now);
            assert(exists|i: int| 0 <= i < v.len() && v[i].0 == s);
            assert(state_of(v, s) is Some);
        }
    }
}

/// No offer among `outs` leaves nothing published.
proof fn lemma_offers_made_none(outs: Seq<Option<ActionView>>)
    requires
        forall|k: int| 0 <= k < outs.len() ==> (#[trigger] outs[k]) is None,
    ensures
        offers_made(outs).len() == 0,
    decreases outs.len(),
{
    if outs.len() > 0 {
        assert forall|k: int| 0 <= k < outs.len() - 1 implies (#[trigger] outs.drop_last()[k]) is None by {
            assert(outs[k] is None);
        }
        lemma_offers_made_none(outs.drop_last());
        assert(outs[outs.len() - 1] is None);
    }
}

/// Renegotiating a room whose peers lack nothing changes nothing and
/// publishes nothing.
pub proof fn lemma_complete_room_unchanged(
    ps0: Seq<PeerView>,
    fin: Seq<PeerView>,
    room: (Seq<char>, Seq<char>),
    outs: Seq<Option<ActionView>>,
    actions: Seq<ActionView>,
)
    requires
        renegotiation_record(ps0, fin, room, outs, actions),
        room_complete(ps0, room),
    ensures
        actions.len() == 0,
        fin == ps0,
{
    let n = ps0.len();
    assert forall|j: int| 0 <= j < n implies #[trigger] fin[j] == ps0[j] && outs[j] is None && outs[n + j] is None by {
        if ps0[j].room == room {
            assert(missing_tracks(ps0[j].id, ps0[j].outgoing, room_sources(ps0, room)).len() == 0);
        }
    }
    assert forall|k: int| 0 <= k < outs.len() implies (#[trigger] outs[k]) is None by {
        if k < n {
            assert(fin[k] == ps0[k]);
        } else {
            assert(fin[k - n] == ps0[k - n]);
        }
    }
    lemma_offers_made_none(outs);
    assert(fin =~= ps0);
}

/// Where peer ids are distinct and each target of a plan was written its
/// media id or nothing, and every other connection was left alone, a
/// connection that changed got the one frame that `forward_mid` sends it.
proof fn lemma_changed_logs_follow_plan(
    ps: Seq<PeerView>,
    o: PeerView,
    prefs: Map<u64, Seq<char>>,
    mid: Seq<char>,
    is_audio: bool,
    is_video: bool,
    rid: Option<Seq<char>>,
    written: Seq<bool>,
    before: Seq<Seq<ConnectionEvent>>,
    after: Seq<Seq<ConnectionEvent>>,
)
    requires
        keys_distinct(id_pairs(ps)),
        written.len() == forward_plan(ps, o, prefs, mid, is_audio, is_video, rid).len(),
        before.len() == ps.len(),
        after.len() == ps.len(),
        forall|x: int|
            0 <= x < forward_plan(ps, o, prefs, mid, is_audio, is_video, rid).len() ==> #[trigger] after[key_pos(
                id_pairs(ps),
                forward_plan(ps, o, prefs, mid, is_audio, is_video, rid)[x].0,
            )] == (if written[x] {
                before[key_pos(id_pairs(ps), forward_plan(ps, o, prefs, mid, is_audio, is_video, rid)[x].0)].push(
                    ConnectionEvent::Write(forward_plan(ps, o, prefs, mid, is_audio, is_video, rid)[x].1),
                )
            } else {
                before[key_pos(id_pairs(ps), forward_plan(ps, o, prefs, mid, is_audio, is_video, rid)[x].0)]
            }),
        forall|j: int|
            0 <= j < ps.len() && (forall|x: int|
                0 <= x < forward_plan(ps, o, prefs, mid, is_audio, is_video, rid).len() ==> (#[trigger] forward_plan(
                    ps,
                    o,
                    prefs,
                    mid,
                    is_audio,
                    is_video,
                    rid,
                )[x]).0 != ps[j].id) ==> #[trigger] after[j] == before[j],
    ensures
        forall|j: int|
            0 <= j < ps.len() && #[trigger] after[j] != before[j] ==> (forward_mid(o, ps[j], prefs, mid, is_audio, is_video, rid)
                matches Some(m) && after[j] == before[j].push(ConnectionEvent::Write(m))),
{
    let plan = forward_plan(ps, o, prefs, mid, is_audio, is_video, rid);
    lemma_forward_plan(ps, o, prefs, mid, is_audio, is_video, rid);
    assert forall|j: int| 0 <= j < ps.len() && #[trigger] after[j] != before[j] implies (forward_mid(
        o,
        ps[j],
        prefs,
        mid,
        is_audio,
        is_video,
        rid,
    ) matches Some(m) && after[j] == before[j].push(ConnectionEvent::Write(m))) by {
        let x = choose|x: int| 0 <= x < plan.len() && (#[trigger] plan[x]).0 == ps[j].id;
        let jj = choose|jj: int|
            0 <= jj < ps.len() && ps[jj].id == (#[trigger] plan[x]).0 && ps[jj].id != o.id && ps[jj].room == o.room
                && forward_mid(o, ps[jj], prefs, mid, is_audio, is_video, rid) == Some(plan[x].1);
        assert(id_pairs(ps)[j].0 == ps[j].id);
        assert(id_pairs(ps)[jj].0 == ps[jj].id);
        crate::assoc::lemma_key_pos_unique(id_pairs(ps), ps[j].id, j);
        crate::assoc::lemma_key_pos_unique(id_pairs(ps), ps[j].id, jj);
        assert(after[key_pos(id_pairs(ps), plan[x].0)] == after[j]);
    }
}

/// A peer whose connection the library closed (after its ICE connection
/// dropped) is dropped by the next cleanup: its id is among those dropped,
/// and no peer with its id is left.
pub proof fn lemma_closed_peer_dropped(
    before: SfuServer,
    after: SfuServer,
    keep: Seq<bool>,
    actions: Seq<ActionView>,
    i: int,
)
    requires
        before.wf(),
        cleaned_up(before, after, keep, actions),
        0 <= i < before.peer_views().len(),
        before.rtc_of(i).closed(),
    ensures
        dropped_ids(before.peer_views(), keep).contains(before.peer_views()[i].id),
        !has_key(id_pairs(after.peer_views()), before.peer_views()[i].id),
{
    before.lemma_wf_facts();
    let ps = before.peer_views();
    lemma_dropped_peer_gone(ps, keep, i);
    if has_key(id_pairs(after.peer_views()), ps[i].id) {
        let x = choose|x: int| 0 <= x < id_pairs(after.peer_views()).len() && id_pairs(after.peer_views())[x].0 == ps[i].id;
        assert(kept_peers(ps, keep)[x].id == ps[i].id);
    }
}

/// Where ids are distinct, a peer at a position that `keep` drops has its
/// id among the dropped ones and among none of the kept peers.
proof fn lemma_dropped_peer_gone(ps: Seq<PeerView>, keep: Seq<bool>, i: int)
    requires
        keys_distinct(id_pairs(ps)),
        keep.len() == ps.len(),
        0 <= i < ps.len(),
        !keep[i],
    ensures
        dropped_ids(ps, keep).contains(ps[i].id),
        forall|x: int| 0 <= x < kept_peers(ps, keep).len() ==> (#[trigger] kept_peers(ps, keep)[x]).id != ps[i].id,
    decreases ps.len(),
{
    let n = ps.len() - 1;
    let init = ps.drop_last();
    let ki = keep.drop_last();
    assert forall|a: int, b: int| 0 <= a < init.len() && 0 <= b < init.len() && a != b implies id_pairs(init)[a].0
        != id_pairs(init)[b].0 by {
        assert(id_pairs(init)[a].0 == id_pairs(ps)[a].0);
        assert(id_pairs(init)[b].0 == id_pairs(ps)[b].0);
    }
    let r = dropped_ids(init, ki);
    if i == n {
        assert(keep.last() == keep[i]);
        assert(dropped_ids(ps, keep) == r.push(ps[n].id));
        assert(dropped_ids(ps, keep)[r.len() as int] == ps[i].id);
        assert forall|j: int| 0 <= j < init.len() implies #[trigger] init[j].id != ps[i].id by {
            assert(id_pairs(ps)[j].0 == init[j].id);
            assert(id_pairs(ps)[n].0 == ps[n].id);
        }
        lemma_kept_ids_avoid(init, ki, ps[i].id);
    } else {
        lemma_dropped_peer_gone(init, ki, i);
        assert(ki[i] == keep[i]);
        assert(init[i] == ps[i]);
        let k = choose|k: int| 0 <= k < r.len() && r[k] == ps[i].id;
        if keep.last() {
            assert(dropped_ids(ps, keep) == r);
        } else {
            assert(dropped_ids(ps, keep) == r.push(ps[n].id));
            assert(dropped_ids(ps, keep)[k] == ps[i].id);
        }
        assert(id_pairs(ps)[n].0 != id_pairs(ps)[i].0);
    }
}

/// Peers none of which has the id `id` keep none with it.
proof fn lemma_kept_ids_avoid(ps: Seq<PeerView>, keep: Seq<bool>, id: ParticipantId)
    requires
        forall|j: int| 0 <= j < ps.len() ==> (#[trigger] ps[j]).id != id,
    ensures
        forall|x: int| 0 <= x < kept_peers(ps, keep).len() ==> (#[trigger] kept_peers(ps, keep)[x]).id != id,
    decreases ps.len(),
{
    if ps.len() > 0 && keep.len() > 0 {
        let init = ps.drop_last();
        assert forall|j: int| 0 <= j < init.len() implies (#[trigger] init[j]).id != id by {
            assert(init[j] == ps[j]);
        }
        lemma_kept_ids_avoid(init, keep.drop_last(), id);
        assert(ps.last() == ps[ps.len() - 1]);
    }
}

/// How a target's quality preference filters a simulcast video frame: a
/// target preferring "low" gets only the layers "low" and "q"; one
/// preferring "medium" gets every layer but "high" and "f"; any other
/// preference gets every layer. A layer that passes goes where a frame
/// without a layer would.
pub proof fn lemma_preference_layers(
    o: PeerView,
    t: PeerView,
    prefs: Map<u64, Seq<char>>,
    mid: Seq<char>,
    is_audio: bool,
    rid: Seq<char>,
)
    ensures
        forward_mid(o, t, prefs, mid, is_audio, true, Some(rid)) == if (preference_of(prefs, t.id) == "low"@ && rid
            != "low"@ && rid != "q"@) || (preference_of(prefs, t.id) == "medium"@ && (rid == "high"@ || rid == "f"@)) {
            None
        } else {
            forward_mid(o, t, prefs, mid, is_audio, true, None)
        },
        preference_of(prefs, t.id) == "low"@ && forward_mid(o, t, prefs, mid, is_audio, true, Some(rid)) is Some ==> (rid
            == "low"@ || rid == "q"@),
{
    reveal_strlit("low");
    reveal_strlit("medium");
    assert("low"@.len() != "medium"@.len());
    let p = preference_of(prefs, t.id);
    let skip = (p == "low"@ && rid != "low"@ && rid != "q"@) || (p == "medium"@ && (rid == "high"@ || rid == "f"@));
    assert(quality_skips(p, rid) == skip);
}

/// A new server offer never drops an earlier one that awaits its answer:
/// where a peer's missing tracks were offered (as `offer_missing_tracks`
/// states) and its pending offer carried the changes `pm0` before (`pmb`
/// when the new offer was made, `pmb == pm0`), the pending offer it is
/// left with carries those changes first.
pub proof fn lemma_offer_keeps_pending_changes(
    p: PeerView,
    q: PeerView,
    sources: Seq<(ParticipantId, Seq<char>, Seq<(Seq<char>, MediaKind)>)>,
    merge_existing: bool,
    out: Option<ActionView>,
    pm0: Seq<Seq<char>>,
    pmb: Seq<Seq<char>>,
    pma: Seq<Seq<char>>,
)
    requires
        pmb == pm0,
        ({
            let missing = missing_tracks(p.id, p.outgoing, sources);
            &&& missing.len() == 0 ==> pma == pmb && q == p
            &&& missing.len() > 0 ==> exists|mids: Seq<Seq<char>>|
                #[trigger] offered_missing_tracks(p, q, missing, mids, sources, merge_existing, out) && (q.has_pending_offer
                    ==> pma == pmb + mids)
        }),
    ensures
        q.has_pending_offer ==> pm0.is_prefix_of(pma),
{
    let missing = missing_tracks(p.id, p.outgoing, sources);
    if q.has_pending_offer {
        if missing.len() > 0 {
            let mids = choose|mids: Seq<Seq<char>>|
                #[trigger] offered_missing_tracks(p, q, missing, mids, sources, merge_existing, out) && (q.has_pending_offer
                    ==> pma == pmb + mids);
            assert((pm0 + mids).subrange(0, pm0.len() as int) =~= pm0);
        } else {
            assert(pma.subrange(0, pm0.len() as int) =~= pm0);
        }
    }
}

/// Where peer ids are distinct, a frame goes to each peer at most once.
pub proof fn lemma_forward_plan_once(
    ps: Seq<PeerView>,
    o: PeerView,
    prefs: Map<u64, Seq<char>>,
    mid: Seq<char>,
    is_audio: bool,
    is_video: bool,
    rid: Option<Seq<char>>,
)
    requires
        keys_distinct(id_pairs(ps)),
    ensures
        forall|a: int, b: int|
            0 <= a < b < forward_plan(ps, o, prefs, mid, is_audio, is_video, rid).len() ==> (#[trigger] forward_plan(
                ps,
                o,
                prefs,
                mid,
                is_audio,
                is_video,
                rid,
            )[a]).0 != (#[trigger] forward_plan(ps, o, prefs, mid, is_audio, is_video, rid)[b]).0,
    decreases ps.len(),
{
    if ps.len() > 0 {
        let init = ps.drop_last();
        let n = ps.len() - 1;
        assert forall|x: int, y: int| 0 <= x < init.len() && 0 <= y < init.len() && x != y implies id_pairs(init)[x].0
            != id_pairs(init)[y].0 by {
            assert(id_pairs(init)[x].0 == id_pairs(ps)[x].0);
            assert(id_pairs(init)[y].0 == id_pairs(ps)[y].0);
        }
        lemma_forward_plan_once(init, o, prefs, mid, is_audio, is_video, rid);
        lemma_forward_plan(init, o, prefs, mid, is_audio, is_video, rid);
        let r = forward_plan(init, o, prefs, mid, is_audio, is_video, rid);
        let plan = forward_plan(ps, o, prefs, mid, is_audio, is_video, rid);
        assert forall|a: int, b: int| 0 <= a < b < plan.len() implies (#[trigger] plan[a]).0 != (#[trigger] plan[b]).0 by {
            if b < r.len() {
                assert(plan[a] == r[a] && plan[b] == r[b]);
            } else {
                assert(plan[a] == r[a]);
                assert(plan[b].0 == ps[n].id);
                let j = choose|j: int|
                    0 <= j < init.len() && init[j].id == (#[trigger] r[a]).0 && init[j].id != o.id && init[j].room == o.room
                        && forward_mid(o, init[j], prefs, mid, is_audio, is_video, rid) == Some(r[a].1);
                assert(id_pairs(ps)[j].0 == init[j].id);
                assert(id_pairs(ps)[n].0 == ps[n].id);
            }
        }
    }
}

} // verus!
