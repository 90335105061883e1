//! A connected peer and the tables by which the SFU routes its tracks.
//!
//! Each peer keeps three tables, each a map with distinct keys:
//! - `tracks_in`: media id of a track the peer sends us, to its kind;
//! - `tracks_out`: media id of a track we send the peer, to its source
//!   (the participant that sends it to us and that participant's media id);
//! - `outgoing_tracks`: (source participant, kind), to the media id on which
//!   we send that source's track of that kind to the peer.
use vstd::prelude::*;
use crate::rtc::Connection;
use crate::rtc::PendingOffer;
use crate::assoc::{has_key, keys_distinct, lemma_key_pos_unique, lemma_map_insert, lookup, map_insert};
use crate::ids::{MediaKind, ParticipantId, RoomId};

verus! {

/// A track that a peer sends us.
pub struct TrackIn {
    pub mid: String,
    pub kind: MediaKind,
}

/// A track that we send a peer, with where it comes from.
pub struct TrackOut {
    pub mid: String,
    pub source: ParticipantId,
    pub source_mid: String,
}

/// The media id on which a source's track of a kind goes to a peer.
pub struct OutgoingTrack {
    pub source: ParticipantId,
    pub kind: MediaKind,
    pub mid: String,
}

pub open spec fn in_view(s: Seq<TrackIn>) -> Seq<(Seq<char>, MediaKind)> {
    s.map_values(|t: TrackIn| (t.mid@, t.kind))
}

pub open spec fn out_view(s: Seq<TrackOut>) -> Seq<(Seq<char>, (ParticipantId, Seq<char>))> {
    s.map_values(|t: TrackOut| (t.mid@, (t.source, t.source_mid@)))
}

pub open spec fn outgoing_view(s: Seq<OutgoingTrack>) -> Seq<((ParticipantId, MediaKind), Seq<char>)> {
    s.map_values(|t: OutgoingTrack| ((t.source, t.kind), t.mid@))
}

/// A WebRTC peer of the SFU: a browser participant or a pipe transport to
/// another SFU node.
pub struct SfuPeer {
    pub id: ParticipantId,
    pub room_id: RoomId,
    pub agent_did: String,
    pub rtc: Connection,
    /// Tracks the peer sends us.
    pub tracks_in: Vec<TrackIn>,
    /// Tracks we send the peer, with their sources.
    pub tracks_out: Vec<TrackOut>,
    /// Whether the peer is a pipe transport to another SFU node.
    pub is_pipe_transport: bool,
    /// The DID of the remote SFU node, for a pipe transport.
    pub pipe_remote_did: Option<String>,
    /// Our media id for each (source, kind) that we already send the peer.
    pub outgoing_tracks: Vec<OutgoingTrack>,
    /// The server offer that awaits the peer's answer.
    pub pending_offer: Option<PendingOffer>,
}

/// What the routing logic reads of a peer.
pub struct PeerView {
    pub id: ParticipantId,
    pub room: (Seq<char>, Seq<char>),
    pub agent_did: Seq<char>,
    pub tracks_in: Seq<(Seq<char>, MediaKind)>,
    pub tracks_out: Seq<(Seq<char>, (ParticipantId, Seq<char>))>,
    pub is_pipe_transport: bool,
    pub pipe_remote_did: Option<Seq<char>>,
    pub outgoing: Seq<((ParticipantId, MediaKind), Seq<char>)>,
    pub has_pending_offer: bool,
}

pub open spec fn opt_view(o: Option<String>) -> Option<Seq<char>> {
    match o {
        Some(s) => Some(s@),
        None => None,
    }
}

impl View for SfuPeer {
    type V = PeerView;

    open spec fn view(&self) -> PeerView {
        PeerView {
            id: self.id,
            room: self.room_id@,
            agent_did: self.agent_did@,
            tracks_in: in_view(self.tracks_in@),
            tracks_out: out_view(self.tracks_out@),
            is_pipe_transport: self.is_pipe_transport,
            pipe_remote_did: opt_view(self.pipe_remote_did),
            outgoing: outgoing_view(self.outgoing_tracks@),
            has_pending_offer: self.pending_offer is Some,
        }
    }
}

/// A peer's tables have distinct keys.
pub open spec fn peer_wf(p: PeerView) -> bool {
    &&& keys_distinct(p.tracks_in)
    &&& keys_distinct(p.tracks_out)
    &&& keys_distinct(p.outgoing)
}

/// `i` is the first position of `outgoing` whose media id is `mid`.
pub open spec fn is_first_with_mid(
    outgoing: Seq<((ParticipantId, MediaKind), Seq<char>)>,
    mid: Seq<char>,
    i: int,
) -> bool {
    &&& 0 <= i < outgoing.len()
    &&& outgoing[i].1 == mid
    &&& forall|j: int| 0 <= j < i ==> outgoing[j].1 != mid
}

/// The kind under which `mid` first occurs in `outgoing`, if it does.
pub open spec fn outgoing_kind_of(outgoing: Seq<((ParticipantId, MediaKind), Seq<char>)>, mid: Seq<char>) -> Option<
    MediaKind,
> {
    if exists|i: int| is_first_with_mid(outgoing, mid, i) {
        let i = choose|i: int| is_first_with_mid(outgoing, mid, i);
        Some(outgoing[i].0.1)
    } else {
        None
    }
}

/// The kind under which the pair (`source`, `mid`) first occurs in
/// `outgoing`, if it does.
pub open spec fn outgoing_kind_for(
    outgoing: Seq<((ParticipantId, MediaKind), Seq<char>)>,
    source: ParticipantId,
    mid: Seq<char>,
) -> Option<MediaKind> {
    if exists|i: int|
        0 <= i < outgoing.len() && outgoing[i].0.0 == source && outgoing[i].1 == mid {
        let i = choose|i: int|
            0 <= i < outgoing.len() && outgoing[i].0.0 == source && outgoing[i].1 == mid && forall|j: int|
                0 <= j < i ==> !(outgoing[j].0.0 == source && outgoing[j].1 == mid);
        Some(outgoing[i].0.1)
    } else {
        None
    }
}

/// The media ids of the tracks that come from `source`, in table order.
pub open spec fn mids_from(tracks_out: Seq<(Seq<char>, (ParticipantId, Seq<char>))>, source: ParticipantId) -> Seq<
    Seq<char>,
>
    decreases tracks_out.len(),
{
    if tracks_out.len() == 0 {
        seq![]
    } else {
        let rest = mids_from(tracks_out.drop_last(), source);
        let e = tracks_out.last();
        if e.1.0 == source {
            rest.push(e.0)
        } else {
            rest
        }
    }
}

/// `tracks_out` without the tracks from `source`.
pub open spec fn out_without(tracks_out: Seq<(Seq<char>, (ParticipantId, Seq<char>))>, source: ParticipantId) -> Seq<
    (Seq<char>, (ParticipantId, Seq<char>)),
>
    decreases tracks_out.len(),
{
    if tracks_out.len() == 0 {
        seq![]
    } else {
        let rest = out_without(tracks_out.drop_last(), source);
        let e = tracks_out.last();
        if e.1.0 == source {
            rest
        } else {
            rest.push(e)
        }
    }
}

/// `outgoing` without the entries of `source`.
pub open spec fn outgoing_without(
    outgoing: Seq<((ParticipantId, MediaKind), Seq<char>)>,
    source: ParticipantId,
) -> Seq<((ParticipantId, MediaKind), Seq<char>)>
    decreases outgoing.len(),
{
    if outgoing.len() == 0 {
        seq![]
    } else {
        let rest = outgoing_without(outgoing.drop_last(), source);
        let e = outgoing.last();
        if e.0.0 == source {
            rest
        } else {
            rest.push(e)
        }
    }
}

/// `i` is the first position of `tracks_out` whose source is the track
/// `src_mid` of `origin`.
pub open spec fn is_first_from(
    tracks_out: Seq<(Seq<char>, (ParticipantId, Seq<char>))>,
    origin: ParticipantId,
    src_mid: Seq<char>,
    i: int,
) -> bool {
    &&& 0 <= i < tracks_out.len()
    &&& tracks_out[i].1 == (origin, src_mid)
    &&& forall|j: int| 0 <= j < i ==> tracks_out[j].1 != (origin, src_mid)
}

/// The media id on which a frame from `origin` with media id `src_mid`
/// goes to a peer: the first outgoing track mapped to exactly that source
/// track, or else our track of the frame's kind from `origin`.
pub open spec fn target_mid(p: PeerView, origin: ParticipantId, src_mid: Seq<char>, is_audio: bool) -> Option<
    Seq<char>,
> {
    if exists|i: int| is_first_from(p.tracks_out, origin, src_mid, i) {
        let i = choose|i: int| is_first_from(p.tracks_out, origin, src_mid, i);
        Some(p.tracks_out[i].0)
    } else {
        lookup(
            p.outgoing,
            (origin, if is_audio {
                MediaKind::Audio
            } else {
                MediaKind::Video
            }),
        )
    }
}

/// The source tracks of which a peer should get a keyframe: for each track
/// we send it, in table order, the source track, where we send the peer a
/// video track of that source.
pub open spec fn keyframe_sources(p: PeerView) -> Seq<(ParticipantId, Seq<char>)>
    decreases p.tracks_out.len(),
{
    keyframe_sources_of(p.tracks_out, p.outgoing)
}

pub open spec fn keyframe_sources_of(
    tracks_out: Seq<(Seq<char>, (ParticipantId, Seq<char>))>,
    outgoing: Seq<((ParticipantId, MediaKind), Seq<char>)>,
) -> Seq<(ParticipantId, Seq<char>)>
    decreases tracks_out.len(),
{
    if tracks_out.len() == 0 {
        seq![]
    } else {
        let rest = keyframe_sources_of(tracks_out.drop_last(), outgoing);
        let src = tracks_out.last().1;
        if has_key(outgoing, (src.0, MediaKind::Video)) {
            rest.push(src)
        } else {
            rest
        }
    }
}

/// `src` (a source peer and its media id) is the source of one of the
/// tracks `tracks_out`, and a video track of that source is among
/// `outgoing`.
pub open spec fn is_video_source_track(
    tracks_out: Seq<(Seq<char>, (ParticipantId, Seq<char>))>,
    outgoing: Seq<((ParticipantId, MediaKind), Seq<char>)>,
    src: (ParticipantId, Seq<char>),
) -> bool {
    &&& exists|j: int| 0 <= j < tracks_out.len() && #[trigger] tracks_out[j].1 == src
    &&& has_key(outgoing, (src.0, MediaKind::Video))
}

/// Each keyframe request of a peer goes to the source of one of the tracks
/// it receives, for that source's own media id (the source track recorded
/// with the track, not our media id towards the peer), where the peer
/// receives a video track of that source; and every such source track is
/// asked for.
pub proof fn lemma_keyframe_sources(
    tracks_out: Seq<(Seq<char>, (ParticipantId, Seq<char>))>,
    outgoing: Seq<((ParticipantId, MediaKind), Seq<char>)>,
)
    ensures
        forall|k: int|
            0 <= k < keyframe_sources_of(tracks_out, outgoing).len() ==> is_video_source_track(
                tracks_out,
                outgoing,
                #[trigger] keyframe_sources_of(tracks_out, outgoing)[k],
            ),
        forall|j: int|
            0 <= j < tracks_out.len() && has_key(outgoing, (#[trigger] tracks_out[j].1.0, MediaKind::Video))
                ==> keyframe_sources_of(tracks_out, outgoing).contains(tracks_out[j].1),
    decreases tracks_out.len(),
{
    if tracks_out.len() > 0 {
        let init = tracks_out.drop_last();
        let n = tracks_out.len() - 1;
        lemma_keyframe_sources(init, outgoing);
        let r = keyframe_sources_of(init, outgoing);
        let ks = keyframe_sources_of(tracks_out, outgoing);
        assert(tracks_out.last() == tracks_out[n]);
        assert forall|k: int| 0 <= k < ks.len() implies is_video_source_track(tracks_out, outgoing, #[trigger] ks[k]) by {
            if k < r.len() {
                assert(ks == r || ks == r.push(tracks_out.last().1));
                assert(ks[k] == r[k]);
                assert(is_video_source_track(init, outgoing, r[k]));
                let j = choose|j: int|
                    0 <= j < init.len() && #[trigger] init[j].1 == r[k] && has_key(outgoing, (r[k].0, MediaKind::Video));
                assert(init[j] == tracks_out[j]);
            } else {
                assert(ks.len() > r.len());
                assert(has_key(outgoing, (tracks_out.last().1.0, MediaKind::Video)));
                assert(ks == r.push(tracks_out.last().1));
                assert(ks[k] == tracks_out[n].1);
                assert(0 <= n < tracks_out.len() && ks[k] == tracks_out[n].1 && has_key(
                    outgoing,
                    (tracks_out[n].1.0, MediaKind::Video),
                ));
            }
        }
        assert forall|j: int|
            0 <= j < tracks_out.len() && has_key(outgoing, (#[trigger] tracks_out[j].1.0, MediaKind::Video)) implies ks.contains(
            tracks_out[j].1,
        ) by {
            if j < n {
                assert(init[j] == tracks_out[j]);
                assert(r.contains(init[j].1));
                let k = choose|k: int| 0 <= k < r.len() && r[k] == init[j].1;
                assert(ks[k] == r[k]);
            } else {
                assert(ks[r.len() as int] == tracks_out[n].1);
            }
        }
    }
}

impl SfuPeer {
    /// A peer that has no tracks yet and no pending offer.
    pub fn new(
        id: ParticipantId,
        room_id: RoomId,
        agent_did: String,
        rtc: Connection,
        is_pipe_transport: bool,
        pipe_remote_did: Option<String>,
    ) -> (p: SfuPeer)
        ensures
            p@.id == id,
            p@.room == room_id@,
            p@.agent_did == agent_did@,
            p@.tracks_in == Seq::<(Seq<char>, MediaKind)>::empty(),
            p@.tracks_out == Seq::<(Seq<char>, (ParticipantId, Seq<char>))>::empty(),
            p@.outgoing == Seq::<((ParticipantId, MediaKind), Seq<char>)>::empty(),
            p@.is_pipe_transport == is_pipe_transport,
            p@.pipe_remote_did == opt_view(pipe_remote_did),
            !p@.has_pending_offer,
            peer_wf(p@),
    {
        SfuPeer {
            id,
            room_id,
            agent_did,
            rtc,
            tracks_in: Vec::new(),
            tracks_out: Vec::new(),
            is_pipe_transport,
            pipe_remote_did,
            outgoing_tracks: Vec::new(),
            pending_offer: None,
        }
    }

    /// Position of the track in `tracks_in` with media id `mid`.
    fn find_track_in(&self, mid: &String) -> (r: Option<usize>)
        ensures
            match r {
                Some(i) => i < self.tracks_in@.len() && self.tracks_in@[i as int].mid@ == mid@,
                None => !has_key(self@.tracks_in, mid@),
            },
    {
        let ghost v = in_view(self.tracks_in@);
        let mut i: usize = 0;
        while i < self.tracks_in.len()
            invariant
                i <= self.tracks_in@.len(),
                v == in_view(self.tracks_in@),
                forall|j: int| 0 <= j < i ==> v[j].0 != mid@,
            decreases self.tracks_in@.len() - i,
        {
            if self.tracks_in[i].mid == *mid {
                return Some(i);
            }
            i = i + 1;
        }
        None
    }

    /// Position of the track in `tracks_out` with media id `mid`.
    fn find_track_out(&self, mid: &String) -> (r: Option<usize>)
        ensures
            match r {
                Some(i) => i < self.tracks_out@.len() && self.tracks_out@[i as int].mid@ == mid@,
                None => !has_key(self@.tracks_out, mid@),
            },
    {
        let ghost v = out_view(self.tracks_out@);
        let mut i: usize = 0;
        while i < self.tracks_out.len()
            invariant
                i <= self.tracks_out@.len(),
                v == out_view(self.tracks_out@),
                forall|j: int| 0 <= j < i ==> v[j].0 != mid@,
            decreases self.tracks_out@.len() - i,
        {
            if self.tracks_out[i].mid == *mid {
                return Some(i);
            }
            i = i + 1;
        }
        None
    }

    /// Position of the entry in `outgoing_tracks` with key (`source`, `kind`).
    fn find_outgoing(&self, source: ParticipantId, kind: MediaKind) -> (r: Option<usize>)
        ensures
            match r {
                Some(i) => i < self.outgoing_tracks@.len() && self.outgoing_tracks@[i as int].source == source
                    && self.outgoing_tracks@[i as int].kind == kind,
                None => !has_key(self@.outgoing, (source, kind)),
            },
    {
        let ghost v = outgoing_view(self.outgoing_tracks@);
        let mut i: usize = 0;
        while i < self.outgoing_tracks.len()
            invariant
                i <= self.outgoing_tracks@.len(),
                v == outgoing_view(self.outgoing_tracks@),
                forall|j: int| 0 <= j < i ==> v[j].0 != (source, kind),
            decreases self.outgoing_tracks@.len() - i,
        {
            proof {
                assert(v[i as int].0 == (self.outgoing_tracks@[i as int].source, self.outgoing_tracks@[i as int].kind));
            }
            if self.outgoing_tracks[i].source == source && self.outgoing_tracks[i].kind == kind {
                return Some(i);
            }
            i = i + 1;
        }
        None
    }

    /// Records that the peer sends us a track `mid` of `kind`.
    pub fn add_track_in(&mut self, mid: String, kind: MediaKind)
        requires
            peer_wf(old(self)@),
        ensures
            final(self)@ == (PeerView { tracks_in: map_insert(old(self)@.tracks_in, mid@, kind), ..old(self)@ }),
            peer_wf(final(self)@),
            final(self).rtc == old(self).rtc,
    {
        let ghost old_v = in_view(self.tracks_in@);
        proof {
            lemma_map_insert(old_v, mid@, kind);
        }
        match self.find_track_in(&mid) {
            Some(i) => {
                proof {
                    assert(old_v[i as int].0 == mid@);
                    lemma_key_pos_unique(old_v, mid@, i as int);
                }
                self.tracks_in.set(i, TrackIn { mid, kind });
            },
            None => {
                self.tracks_in.push(TrackIn { mid, kind });
            },
        }
        proof {
            assert(in_view(self.tracks_in@) =~= map_insert(old_v, mid@, kind));
        }
    }

    /// Records that we send the peer the track `mid`, which carries the
    /// track `source_mid` of `source`.
    pub fn add_track_out(&mut self, mid: String, source: ParticipantId, source_mid: String)
        requires
            peer_wf(old(self)@),
        ensures
            final(self)@ == (PeerView {
                tracks_out: map_insert(old(self)@.tracks_out, mid@, (source, source_mid@)),
                ..old(self)@
            }),
            peer_wf(final(self)@),
            final(self).rtc == old(self).rtc,
    {
        let ghost old_v = out_view(self.tracks_out@);
        let ghost val = (source, source_mid@);
        proof {
            lemma_map_insert(old_v, mid@, val);
        }
        match self.find_track_out(&mid) {
            Some(i) => {
                proof {
                    assert(old_v[i as int].0 == mid@);
                    lemma_key_pos_unique(old_v, mid@, i as int);
                }
                self.tracks_out.set(i, TrackOut { mid, source, source_mid });
            },
            None => {
                self.tracks_out.push(TrackOut { mid, source, source_mid });
            },
        }
        proof {
            assert(out_view(self.tracks_out@) =~= map_insert(old_v, mid@, val));
        }
    }

    /// Records that the track of `kind` from `source` goes to the peer on
    /// our media id `mid`.
    pub fn add_outgoing(&mut self, source: ParticipantId, kind: MediaKind, mid: String)
        requires
            peer_wf(old(self)@),
        ensures
            final(self)@ == (PeerView {
                outgoing: map_insert(old(self)@.outgoing, (source, kind), mid@),
                ..old(self)@
            }),
            peer_wf(final(self)@),
            final(self).rtc == old(self).rtc,
    {
        let ghost old_v = outgoing_view(self.outgoing_tracks@);
        let ghost mv = mid@;
        proof {
            lemma_map_insert(old_v, (source, kind), mv);
        }
        match self.find_outgoing(source, kind) {
            Some(i) => {
                proof {
                    assert(old_v[i as int].0 == (source, kind));
                    lemma_key_pos_unique(old_v, (source, kind), i as int);
                }
                self.outgoing_tracks.set(i, OutgoingTrack { source, kind, mid });
            },
            None => {
                self.outgoing_tracks.push(OutgoingTrack { source, kind, mid });
            },
        }
        proof {
            assert(outgoing_view(self.outgoing_tracks@) =~= map_insert(old_v, (source, kind), mv));
        }
    }

    /// The source of the track we send the peer on `mid`, if any.
    pub fn track_source(&self, mid: &String) -> (r: Option<(ParticipantId, String)>)
        requires
            peer_wf(self@),
        ensures
            match r {
                Some((p, m)) => lookup(self@.tracks_out, mid@) == Some((p, m@)),
                None => lookup(self@.tracks_out, mid@) is None,
            },
    {
        match self.find_track_out(mid) {
            Some(i) => {
                proof {
                    lemma_key_pos_unique(self@.tracks_out, mid@, i as int);
                }
                Some((self.tracks_out[i].source, self.tracks_out[i].source_mid.clone()))
            },
            None => None,
        }
    }

    /// Whether we already send the peer the track of `kind` from `source`.
    pub fn has_outgoing(&self, source: ParticipantId, kind: MediaKind) -> (r: bool)
        ensures
            r == has_key(self@.outgoing, (source, kind)),
    {
        match self.find_outgoing(source, kind) {
            Some(i) => {
                proof {
                    assert(self@.outgoing[i as int].0 == (source, kind));
                }
                true
            },
            None => false,
        }
    }

    /// The media id of the track of `kind` from `source`, if we send it.
    pub fn outgoing_mid(&self, source: ParticipantId, kind: MediaKind) -> (r: Option<String>)
        requires
            peer_wf(self@),
        ensures
            opt_view(r) == lookup(self@.outgoing, (source, kind)),
    {
        match self.find_outgoing(source, kind) {
            Some(i) => {
                proof {
                    lemma_key_pos_unique(self@.outgoing, (source, kind), i as int);
                }
                Some(self.outgoing_tracks[i].mid.clone())
            },
            None => None,
        }
    }

    /// The kind under which our media id `mid` first occurs among the
    /// outgoing tracks, if it does.
    pub fn outgoing_kind_of_mid(&self, mid: &String) -> (r: Option<MediaKind>)
        ensures
            r == outgoing_kind_of(self@.outgoing, mid@),
    {
        let ghost v = outgoing_view(self.outgoing_tracks@);
        let mut i: usize = 0;
        while i < self.outgoing_tracks.len()
            invariant
                i <= self.outgoing_tracks@.len(),
                v == outgoing_view(self.outgoing_tracks@),
                forall|j: int| 0 <= j < i ==> v[j].1 != mid@,
            decreases self.outgoing_tracks@.len() - i,
        {
            if self.outgoing_tracks[i].mid == *mid {
                proof {
                    assert(is_first_with_mid(v, mid@, i as int));
                    let k = choose|k: int| is_first_with_mid(v, mid@, k);
                    if k < i {
                        assert(v[k].1 != mid@);
                    }
                    if i < k {
                        assert(v[i as int].1 == mid@);
                    }
                }
                return Some(self.outgoing_tracks[i].kind);
            }
            i = i + 1;
        }
        None
    }

    /// The kind under which the pair (`source`, `mid`) first occurs among
    /// the outgoing tracks, if it does.
    pub fn outgoing_kind_for(&self, source: ParticipantId, mid: &String) -> (r: Option<MediaKind>)
        ensures
            r == outgoing_kind_for(self@.outgoing, source, mid@),
    {
        let ghost v = outgoing_view(self.outgoing_tracks@);
        let mut i: usize = 0;
        while i < self.outgoing_tracks.len()
            invariant
                i <= self.outgoing_tracks@.len(),
                v == outgoing_view(self.outgoing_tracks@),
                forall|j: int| 0 <= j < i ==> !(v[j].0.0 == source && v[j].1 == mid@),
            decreases self.outgoing_tracks@.len() - i,
        {
            if self.outgoing_tracks[i].source == source && self.outgoing_tracks[i].mid == *mid {
                proof {
                    let ii = i as int;
                    assert(v[ii].0.0 == source && v[ii].1 == mid@);
                    let k = choose|k: int|
                        0 <= k < v.len() && v[k].0.0 == source && v[k].1 == mid@ && forall|j: int|
                            0 <= j < k ==> !(v[j].0.0 == source && v[j].1 == mid@);
                    if k < ii {
                        assert(!(v[k].0.0 == source && v[k].1 == mid@));
                    }
                    if ii < k {
                        assert(!(v[ii].0.0 == source && v[ii].1 == mid@));
                    }
                }
                return Some(self.outgoing_tracks[i].kind);
            }
            i = i + 1;
        }
        None
    }

    /// The media ids of the tracks we send the peer from `source`.
    pub fn mids_from(&self, source: ParticipantId) -> (r: Vec<String>)
        ensures
            r@.map_values(|m: String| m@) == mids_from(self@.tracks_out, source),
    {
        let ghost v = out_view(self.tracks_out@);
        let mut r: Vec<String> = Vec::new();
        let mut i: usize = 0;
        while i < self.tracks_out.len()
            invariant
                i <= self.tracks_out@.len(),
                v == out_view(self.tracks_out@),
                r@.map_values(|m: String| m@) == mids_from(v.take(i as int), source),
            decreases self.tracks_out@.len() - i,
        {
            proof {
                assert(v.take(i + 1).drop_last() =~= v.take(i as int));
            }
            if self.tracks_out[i].source == source {
                r.push(self.tracks_out[i].mid.clone());
            }
            proof {
                assert(r@.map_values(|m: String| m@) =~= mids_from(v.take(i + 1), source));
            }
            i = i + 1;
        }
        proof {
            assert(v.take(i as int) =~= v);
        }
        r
    }

    /// The media id on which a frame from `origin` with media id `src_mid`
    /// goes to this peer, if any.
    pub fn target_mid(&self, origin: ParticipantId, src_mid: &String, is_audio: bool) -> (r: Option<String>)
        requires
            peer_wf(self@),
        ensures
            opt_view(r) == target_mid(self@, origin, src_mid@, is_audio),
    {
        let ghost v = out_view(self.tracks_out@);
        let mut i: usize = 0;
        while i < self.tracks_out.len()
            invariant
                i <= self.tracks_out@.len(),
                v == out_view(self.tracks_out@),
                forall|j: int| 0 <= j < i ==> v[j].1 != (origin, src_mid@),
            decreases self.tracks_out@.len() - i,
        {
            if self.tracks_out[i].source == origin && self.tracks_out[i].source_mid == *src_mid {
                proof {
                    let ii = i as int;
                    assert(v[ii] == (self.tracks_out@[ii].mid@, (self.tracks_out@[ii].source, self.tracks_out@[ii].source_mid@)));
                    assert(is_first_from(v, origin, src_mid@, ii));
                    let k = choose|k: int| is_first_from(v, origin, src_mid@, k);
                    if k < ii {
                        assert(v[k].1 != (origin, src_mid@));
                    }
                    if ii < k {
                        assert(v[ii].1 != (origin, src_mid@));
                    }
                    assert(k == ii);
                    assert(v == self@.tracks_out);
                    assert(exists|i: int| is_first_from(self@.tracks_out, origin, src_mid@, i));
                }
                let res = self.tracks_out[i].mid.clone();
                proof {
                    assert(res@ == v[i as int].0);
                }
                return Some(res);
            }
            proof {
                assert(v[i as int].1 == (self.tracks_out@[i as int].source, self.tracks_out@[i as int].source_mid@));
            }
            i = i + 1;
        }
        let kind = if is_audio {
            MediaKind::Audio
        } else {
            MediaKind::Video
        };
        self.outgoing_mid(origin, kind)
    }

    /// The source tracks from which this peer should get a keyframe once it
    /// accepts our offer.
    /// Whether the peer's tables have distinct keys, as the server asks of
    /// a peer that joins.
    pub fn is_well_formed(&self) -> (r: bool)
        ensures
            r == peer_wf(self@),
    {
        let a = in_mids_distinct(&self.tracks_in);
        let b = out_mids_distinct(&self.tracks_out);
        let c = outgoing_keys_distinct(&self.outgoing_tracks);
        a && b && c
    }

    pub fn keyframe_sources(&self) -> (r: Vec<(ParticipantId, String)>)
        ensures
            r@.map_values(|e: (ParticipantId, String)| (e.0, e.1@)) == keyframe_sources(self@),
    {
        let ghost v = out_view(self.tracks_out@);
        let mut r: Vec<(ParticipantId, String)> = Vec::new();
        let mut i: usize = 0;
        while i < self.tracks_out.len()
            invariant
                i <= self.tracks_out@.len(),
                v == out_view(self.tracks_out@),
                v == self@.tracks_out,
                r@.map_values(|e: (ParticipantId, String)| (e.0, e.1@)) == keyframe_sources_of(
                    v.take(i as int),
                    self@.outgoing,
                ),
            decreases self.tracks_out@.len() - i,
        {
            proof {
                assert(v.take(i + 1).drop_last() =~= v.take(i as int));
                assert(v.take(i + 1).last() == v[i as int]);
            }
            let source = self.tracks_out[i].source;
            if self.has_outgoing(source, MediaKind::Video) {
                r.push((source, self.tracks_out[i].source_mid.clone()));
            }
            proof {
                assert(r@.map_values(|e: (ParticipantId, String)| (e.0, e.1@)) =~= keyframe_sources_of(
                    v.take(i + 1),
                    self@.outgoing,
                ));
            }
            i = i + 1;
        }
        proof {
            assert(v.take(i as int) =~= v);
        }
        r
    }

    /// Forgets every track we send the peer from `source`.
    pub fn forget_source(&mut self, source: ParticipantId)
        requires
            peer_wf(old(self)@),
        ensures
            final(self)@ == (PeerView {
                tracks_out: out_without(old(self)@.tracks_out, source),
                outgoing: outgoing_without(old(self)@.outgoing, source),
                ..old(self)@
            }),
            peer_wf(final(self)@),
            final(self).rtc == old(self).rtc,
    {
        let ghost ov = out_view(self.tracks_out@);
        let ghost gv = outgoing_view(self.outgoing_tracks@);
        let mut kept_out: Vec<TrackOut> = Vec::new();
        let mut i: usize = 0;
        while i < self.tracks_out.len()
            invariant
                i <= self.tracks_out@.len(),
                ov == out_view(self.tracks_out@),
                out_view(kept_out@) == out_without(ov.take(i as int), source),
            decreases self.tracks_out@.len() - i,
        {
            proof {
                assert(ov.take(i + 1).drop_last() =~= ov.take(i as int));
            }
            if self.tracks_out[i].source != source {
                let t = &self.tracks_out[i];
                kept_out.push(TrackOut { mid: t.mid.clone(), source: t.source, source_mid: t.source_mid.clone() });
            }
            proof {
                assert(out_view(kept_out@) =~= out_without(ov.take(i + 1), source));
            }
            i = i + 1;
        }
        proof {
            assert(ov.take(i as int) =~= ov);
        }
        let mut kept_outgoing: Vec<OutgoingTrack> = Vec::new();
        let mut k: usize = 0;
        while k < self.outgoing_tracks.len()
            invariant
                k <= self.outgoing_tracks@.len(),
                gv == outgoing_view(self.outgoing_tracks@),
                outgoing_view(kept_outgoing@) == outgoing_without(gv.take(k as int), source),
            decreases self.outgoing_tracks@.len() - k,
        {
            proof {
                assert(gv.take(k + 1).drop_last() =~= gv.take(k as int));
            }
            if self.outgoing_tracks[k].source != source {
                let t = &self.outgoing_tracks[k];
                kept_outgoing.push(OutgoingTrack { source: t.source, kind: t.kind, mid: t.mid.clone() });
            }
            proof {
                assert(outgoing_view(kept_outgoing@) =~= outgoing_without(gv.take(k + 1), source));
            }
            k = k + 1;
        }
        proof {
            assert(gv.take(k as int) =~= gv);
            lemma_out_without(ov, source);
            lemma_outgoing_without(gv, source);
        }
        self.tracks_out = kept_out;
        self.outgoing_tracks = kept_outgoing;
    }
}

/// Dropping the tracks of a source keeps only pairs of the table, so keys
/// stay distinct.
pub proof fn lemma_out_without(s: Seq<(Seq<char>, (ParticipantId, Seq<char>))>, source: ParticipantId)
    requires
        keys_distinct(s),
    ensures
        keys_distinct(out_without(s, source)),
        forall|i: int| 0 <= i < out_without(s, source).len() ==> s.contains(#[trigger] out_without(s, source)[i]),
    decreases s.len(),
{
    if s.len() > 0 {
        let init = s.drop_last();
        assert forall|i: int, j: int|
            0 <= i < init.len() && 0 <= j < init.len() && i != j implies init[i].0 != init[j].0 by {
            assert(init[i] == s[i] && init[j] == s[j]);
        }
        lemma_out_without(init, source);
        let rest = out_without(init, source);
        let r = out_without(s, source);
        assert forall|i: int| 0 <= i < rest.len() implies s.contains(#[trigger] rest[i]) by {
            let k = choose|k: int| 0 <= k < init.len() && init[k] == rest[i];
            assert(s[k] == init[k]);
        }
        if s.last().1.0 != source {
            assert(r == rest.push(s.last()));
            assert forall|i: int| 0 <= i < rest.len() implies rest[i].0 != s.last().0 by {
                let k = choose|k: int| 0 <= k < init.len() && init[k] == rest[i];
                assert(s[k] == init[k]);
                assert(s[s.len() - 1] == s.last());
            }
            assert forall|i: int, j: int| 0 <= i < r.len() && 0 <= j < r.len() && i != j implies r[i].0
                != r[j].0 by {
                if i < rest.len() && j < rest.len() {
                    assert(r[i] == rest[i] && r[j] == rest[j]);
                } else if i < rest.len() {
                    assert(r[i] == rest[i]);
                } else {
                    assert(r[j] == rest[j]);
                }
            }
            assert forall|i: int| 0 <= i < r.len() implies s.contains(#[trigger] r[i]) by {
                if i < rest.len() {
                    assert(r[i] == rest[i]);
                } else {
                    assert(s[s.len() - 1] == r[i]);
                }
            }
        }
    }
}

/// Dropping the entries of a source keeps only pairs of the table, so keys
/// stay distinct.
pub proof fn lemma_outgoing_without(s: Seq<((ParticipantId, MediaKind), Seq<char>)>, source: ParticipantId)
    requires
        keys_distinct(s),
    ensures
        keys_distinct(outgoing_without(s, source)),
        forall|i: int|
            0 <= i < outgoing_without(s, source).len() ==> s.contains(#[trigger] outgoing_without(s, source)[i]),
    decreases s.len(),
{
    if s.len() > 0 {
        let init = s.drop_last();
        assert forall|i: int, j: int|
            0 <= i < init.len() && 0 <= j < init.len() && i != j implies init[i].0 != init[j].0 by {
            assert(init[i] == s[i] && init[j] == s[j]);
        }
        lemma_outgoing_without(init, source);
        let rest = outgoing_without(init, source);
        let r = outgoing_without(s, source);
        assert forall|i: int| 0 <= i < rest.len() implies s.contains(#[trigger] rest[i]) by {
            let k = choose|k: int| 0 <= k < init.len() && init[k] == rest[i];
            assert(s[k] == init[k]);
        }
        if s.last().0.0 != source {
            assert(r == rest.push(s.last()));
            assert forall|i: int| 0 <= i < rest.len() implies rest[i].0 != s.last().0 by {
                let k = choose|k: int| 0 <= k < init.len() && init[k] == rest[i];
                assert(s[k] == init[k]);
                assert(s[s.len() - 1] == s.last());
            }
            assert forall|i: int, j: int| 0 <= i < r.len() && 0 <= j < r.len() && i != j implies r[i].0
                != r[j].0 by {
                if i < rest.len() && j < rest.len() {
                    assert(r[i] == rest[i] && r[j] == rest[j]);
                } else if i < rest.len() {
                    assert(r[i] == rest[i]);
                } else {
                    assert(r[j] == rest[j]);
                }
            }
            assert forall|i: int| 0 <= i < r.len() implies s.contains(#[trigger] r[i]) by {
                if i < rest.len() {
                    assert(r[i] == rest[i]);
                } else {
                    assert(s[s.len() - 1] == r[i]);
                }
            }
        }
    }
}


/// Whether no two incoming tracks share a media id.
fn in_mids_distinct(s: &Vec<TrackIn>) -> (r: bool)
    ensures
        r == keys_distinct(in_view(s@)),
{
    let ghost v = in_view(s@);
    let n = s.len();
    let mut i: usize = 0;
    while i < n
        invariant
            n == s@.len(),
            v == in_view(s@),
            i <= n,
            forall|a: int, b: int| 0 <= a < i && a < b < n ==> v[a].0 != v[b].0,
        decreases n - i,
    {
        let mut j: usize = i + 1;
        while j < n
            invariant
                n == s@.len(),
                v == in_view(s@),
                i < n,
                i < j <= n,
                forall|b: int| i < b < j ==> v[i as int].0 != v[b].0,
            decreases n - j,
        {
            if s[i].mid == s[j].mid {
                proof {
                    assert(v[i as int].0 == v[j as int].0);
                }
                return false;
            }
            j = j + 1;
        }
        i = i + 1;
    }
    proof {
        assert forall|a: int, b: int| 0 <= a < v.len() && 0 <= b < v.len() && a != b implies v[a].0 != v[b].0 by {
            if a > b {
                assert(v[b].0 != v[a].0);
            }
        }
    }
    true
}

/// Whether no two outgoing tracks share a media id.
fn out_mids_distinct(s: &Vec<TrackOut>) -> (r: bool)
    ensures
        r == keys_distinct(out_view(s@)),
{
    let ghost v = out_view(s@);
    let n = s.len();
    let mut i: usize = 0;
    while i < n
        invariant
            n == s@.len(),
            v == out_view(s@),
            i <= n,
            forall|a: int, b: int| 0 <= a < i && a < b < n ==> v[a].0 != v[b].0,
        decreases n - i,
    {
        let mut j: usize = i + 1;
        while j < n
            invariant
                n == s@.len(),
                v == out_view(s@),
                i < n,
                i < j <= n,
                forall|b: int| i < b < j ==> v[i as int].0 != v[b].0,
            decreases n - j,
        {
            if s[i].mid == s[j].mid {
                proof {
                    assert(v[i as int].0 == v[j as int].0);
                }
                return false;
            }
            j = j + 1;
        }
        i = i + 1;
    }
    proof {
        assert forall|a: int, b: int| 0 <= a < v.len() && 0 <= b < v.len() && a != b implies v[a].0 != v[b].0 by {
            if a > b {
                assert(v[b].0 != v[a].0);
            }
        }
    }
    true
}

/// Whether no two sent tracks share a source and a kind.
fn outgoing_keys_distinct(s: &Vec<OutgoingTrack>) -> (r: bool)
    ensures
        r == keys_distinct(outgoing_view(s@)),
{
    let ghost v = outgoing_view(s@);
    let n = s.len();
    let mut i: usize = 0;
    while i < n
        invariant
            n == s@.len(),
            v == outgoing_view(s@),
            i <= n,
            forall|a: int, b: int| 0 <= a < i && a < b < n ==> v[a].0 != v[b].0,
        decreases n - i,
    {
        let mut j: usize = i + 1;
        while j < n
            invariant
                n == s@.len(),
                v == outgoing_view(s@),
                i < n,
                i < j <= n,
                forall|b: int| i < b < j ==> v[i as int].0 != v[b].0,
            decreases n - j,
        {
            if s[i].source == s[j].source && s[i].kind == s[j].kind {
                proof {
                    assert(v[i as int].0 == v[j as int].0);
                }
                return false;
            }
            j = j + 1;
        }
        i = i + 1;
    }
    proof {
        assert forall|a: int, b: int| 0 <= a < v.len() && 0 <= b < v.len() && a != b implies v[a].0 != v[b].0 by {
            if a > b {
                assert(v[b].0 != v[a].0);
            }
        }
    }
    true
}

} // verus!
