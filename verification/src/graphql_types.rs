//! The records that the SFU hands to its GraphQL API and publishes to
//! subscribers.
use vstd::prelude::*;

verus! {

/// Information about an active SFU room.
pub struct SfuRoomGql {
    pub neighbourhood_url: String,
    pub room_name: String,
    pub participant_count: i32,
    pub participants: Vec<SfuParticipantGql>,
}

/// Information about a participant in an SFU room.
pub struct SfuParticipantGql {
    pub agent_did: String,
    pub has_audio: bool,
    pub has_video: bool,
    pub is_active_speaker: bool,
}

/// Result of joining a call via the SFU.
pub struct CallSessionGql {
    pub room_name: String,
    pub neighbourhood_url: String,
    pub participant_id: String,
    pub sdp_answer: String,
    /// If set, the client should reconnect to this SFU node's DID instead.
    pub redirect_to: Option<String>,
    /// "streamId:did" pairs that tell the client whose each stream is.
    pub stream_mapping: Vec<String>,
}

/// SFU configuration of a neighbourhood.
pub struct SfuConfigGql {
    pub mode: String,
    pub designated_peer: Option<String>,
    pub sfu_peers: Vec<String>,
    pub fallback: String,
    pub max_mesh_participants: i32,
    pub max_participants_per_node: Option<i32>,
}

/// Information about an SFU node in a cascaded cluster.
pub struct SfuNodeGql {
    pub did: String,
    pub participant_count: i32,
    pub capacity_hint: i32,
}

/// A participant joined or left a room ("joined" | "left").
pub struct CallParticipantEvent {
    pub room_id: String,
    pub agent_did: String,
    pub event_type: String,
}

/// A stream was added or removed ("audio" | "video"; "added" | "removed").
pub struct CallStreamEvent {
    pub room_id: String,
    pub agent_did: String,
    pub track_kind: String,
    pub event_type: String,
}

/// A server-initiated SDP offer for one peer, sent when tracks are added
/// or removed.
pub struct RenegotiationOfferEvent {
    /// The room ("neighbourhood_url:room_name").
    pub room_id: String,
    /// The DID of the peer the offer is for.
    pub agent_did: String,
    /// The SDP offer as JSON.
    pub sdp_offer: String,
    /// "mid:ownerDid:kind" for each track of the offer.
    pub track_mapping: Vec<String>,
}

pub open spec fn strings_of(v: Seq<String>) -> Seq<Seq<char>> {
    v.map_values(|s: String| s@)
}

/// A copy of a list of strings.
pub fn copy_strings(v: &Vec<String>) -> (r: Vec<String>)
    ensures
        strings_of(r@) == strings_of(v@),
{
    let mut r: Vec<String> = Vec::new();
    let mut i: usize = 0;
    while i < v.len()
        invariant
            i <= v@.len(),
            strings_of(r@) == strings_of(v@).take(i as int),
        decreases v@.len() - i,
    {
        let ghost prev = r@;
        let s = v[i].clone();
        r.push(s);
        proof {
            assert(r@ == prev.push(s));
            assert(strings_of(r@) =~= strings_of(prev).push(s@));
            assert(strings_of(v@)[i as int] == v@[i as int]@);
            assert(strings_of(r@) =~= strings_of(v@).take(i + 1));
        }
        i = i + 1;
    }
    proof {
        assert(strings_of(v@).take(i as int) =~= strings_of(v@));
    }
    r
}

impl CallParticipantEvent {
    /// The value published to subscribers: the event itself.
    pub fn get_value(&self) -> (r: CallParticipantEvent)
        ensures
            r.room_id@ == self.room_id@,
            r.agent_did@ == self.agent_did@,
            r.event_type@ == self.event_type@,
    {
        CallParticipantEvent {
            room_id: self.room_id.clone(),
            agent_did: self.agent_did.clone(),
            event_type: self.event_type.clone(),
        }
    }

    /// Subscribers filter these events by room.
    pub fn get_filter(&self) -> (r: Option<String>)
        ensures
            r matches Some(f) && f@ == self.room_id@,
    {
        Some(self.room_id.clone())
    }
}

impl CallStreamEvent {
    /// The value published to subscribers: the event itself.
    pub fn get_value(&self) -> (r: CallStreamEvent)
        ensures
            r.room_id@ == self.room_id@,
            r.agent_did@ == self.agent_did@,
            r.track_kind@ == self.track_kind@,
            r.event_type@ == self.event_type@,
    {
        CallStreamEvent {
            room_id: self.room_id.clone(),
            agent_did: self.agent_did.clone(),
            track_kind: self.track_kind.clone(),
            event_type: self.event_type.clone(),
        }
    }

    /// Subscribers filter these events by room.
    pub fn get_filter(&self) -> (r: Option<String>)
        ensures
            r matches Some(f) && f@ == self.room_id@,
    {
        Some(self.room_id.clone())
    }
}

impl RenegotiationOfferEvent {
    /// The value published to subscribers: the event itself.
    pub fn get_value(&self) -> (r: RenegotiationOfferEvent)
        ensures
            r.room_id@ == self.room_id@,
            r.agent_did@ == self.agent_did@,
            r.sdp_offer@ == self.sdp_offer@,
            strings_of(r.track_mapping@) == strings_of(self.track_mapping@),
    {
        RenegotiationOfferEvent {
            room_id: self.room_id.clone(),
            agent_did: self.agent_did.clone(),
            sdp_offer: self.sdp_offer.clone(),
            track_mapping: copy_strings(&self.track_mapping),
        }
    }

    /// Each offer goes only to the peer it is for: subscribers filter by
    /// DID.
    pub fn get_filter(&self) -> (r: Option<String>)
        ensures
            r matches Some(f) && f@ == self.agent_did@,
    {
        Some(self.agent_did.clone())
    }
}

} // verus!
