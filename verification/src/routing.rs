//! Which tracks a peer still has to receive, how new send tracks are
//! recorded, and the track mappings ("mid:ownerDid:kind") that tell a
//! client whose media each of its tracks carries.
use vstd::prelude::*;
use crate::assoc::{has_key, keys_distinct, lemma_map_insert, lookup, map_insert};
use crate::graphql_types::strings_of;
use crate::ids::{kind_label, media_kind_label, MediaKind, ParticipantId};
use crate::peer::{in_view, outgoing_kind_for, outgoing_kind_of, peer_wf, PeerView, SfuPeer, TrackIn};

verus! {

/// A participant of a room with the tracks it sends.
pub struct TrackSource {
    pub pid: ParticipantId,
    pub did: String,
    pub tracks: Vec<TrackIn>,
}

/// A source track that a peer does not receive yet.
pub struct MissingTrack {
    pub source: ParticipantId,
    pub source_mid: String,
    pub kind: MediaKind,
    pub source_did: String,
}

pub open spec fn source_view(s: TrackSource) -> (ParticipantId, Seq<char>, Seq<(Seq<char>, MediaKind)>) {
    (s.pid, s.did@, in_view(s.tracks@))
}

pub open spec fn sources_view(s: Seq<TrackSource>) -> Seq<(ParticipantId, Seq<char>, Seq<(Seq<char>, MediaKind)>)> {
    s.map_values(|t: TrackSource| source_view(t))
}

pub open spec fn missing_view(s: Seq<MissingTrack>) -> Seq<(ParticipantId, Seq<char>, MediaKind, Seq<char>)> {
    s.map_values(|m: MissingTrack| (m.source, m.source_mid@, m.kind, m.source_did@))
}

/// The tracks of `src` (with DID `did`) whose (source, kind) the peer's
/// outgoing table does not hold, in order.
pub open spec fn missing_for_source(
    outgoing: Seq<((ParticipantId, MediaKind), Seq<char>)>,
    src: ParticipantId,
    did: Seq<char>,
    tracks: Seq<(Seq<char>, MediaKind)>,
) -> Seq<(ParticipantId, Seq<char>, MediaKind, Seq<char>)>
    decreases tracks.len(),
{
    if tracks.len() == 0 {
        seq![]
    } else {
        let rest = missing_for_source(outgoing, src, did, tracks.drop_last());
        let t = tracks.last();
        if has_key(outgoing, (src, t.1)) {
            rest
        } else {
            rest.push((src, t.0, t.1, did))
        }
    }
}

/// The receive tracks that the peer `peer_id` lacks: for each source other
/// than the peer itself, in order, its missing tracks.
pub open spec fn missing_tracks(
    peer_id: ParticipantId,
    outgoing: Seq<((ParticipantId, MediaKind), Seq<char>)>,
    sources: Seq<(ParticipantId, Seq<char>, Seq<(Seq<char>, MediaKind)>)>,
) -> Seq<(ParticipantId, Seq<char>, MediaKind, Seq<char>)>
    decreases sources.len(),
{
    if sources.len() == 0 {
        seq![]
    } else {
        let rest = missing_tracks(peer_id, outgoing, sources.drop_last());
        let s = sources.last();
        if s.0 == peer_id {
            rest
        } else {
            rest + missing_for_source(outgoing, s.0, s.1, s.2)
        }
    }
}

/// The text of a track mapping: "mid:ownerDid:kind".
pub open spec fn mapping_text(mid: Seq<char>, owner_did: Seq<char>, kind: MediaKind) -> Seq<char> {
    mid + seq![':'] + owner_did + seq![':'] + kind_label(kind)
}

/// The peer after recording, for each missing track in order, that it goes
/// out on the matching new media id.
pub open spec fn with_new_tracks(
    p: PeerView,
    missing: Seq<(ParticipantId, Seq<char>, MediaKind, Seq<char>)>,
    mids: Seq<Seq<char>>,
) -> PeerView
    decreases missing.len(),
{
    if missing.len() == 0 || mids.len() == 0 {
        p
    } else {
        let q = with_new_tracks(p, missing.drop_last(), mids.drop_last());
        let m = missing.last();
        let mid = mids.last();
        PeerView {
            outgoing: map_insert(q.outgoing, (m.0, m.2), mid),
            tracks_out: map_insert(q.tracks_out, mid, (m.0, m.1)),
            ..q
        }
    }
}

/// The mappings of the new tracks, in order.
pub open spec fn new_mappings(
    missing: Seq<(ParticipantId, Seq<char>, MediaKind, Seq<char>)>,
    mids: Seq<Seq<char>>,
) -> Seq<Seq<char>> {
    Seq::new(mids.len(), |k: int| mapping_text(mids[k], missing[k].3, missing[k].2))
}

/// `k` is the first source whose participant is `pid`.
pub open spec fn is_first_source(
    sources: Seq<(ParticipantId, Seq<char>, Seq<(Seq<char>, MediaKind)>)>,
    pid: ParticipantId,
    k: int,
) -> bool {
    &&& 0 <= k < sources.len()
    &&& sources[k].0 == pid
    &&& forall|j: int| 0 <= j < k ==> sources[j].0 != pid
}

/// The mapping of the track we send on `out_mid` from `src`: where `src`
/// is a source of the room and `out_mid` is among the outgoing tracks, the
/// media id, the source's DID and the kind under which the media id is
/// first listed.
pub open spec fn mapping_of(
    out_mid: Seq<char>,
    src: ParticipantId,
    outgoing: Seq<((ParticipantId, MediaKind), Seq<char>)>,
    sources: Seq<(ParticipantId, Seq<char>, Seq<(Seq<char>, MediaKind)>)>,
) -> Option<Seq<char>> {
    if exists|k: int| is_first_source(sources, src, k) {
        let k = choose|k: int| is_first_source(sources, src, k);
        match outgoing_kind_of(outgoing, out_mid) {
            Some(kind) => Some(mapping_text(out_mid, sources[k].1, kind)),
            None => None,
        }
    } else {
        None
    }
}

/// `acc` followed by the mappings of the tracks in `tracks_out`, in order,
/// each added only where it is not there yet.
pub open spec fn merged_mappings(
    acc: Seq<Seq<char>>,
    tracks_out: Seq<(Seq<char>, (ParticipantId, Seq<char>))>,
    outgoing: Seq<((ParticipantId, MediaKind), Seq<char>)>,
    sources: Seq<(ParticipantId, Seq<char>, Seq<(Seq<char>, MediaKind)>)>,
) -> Seq<Seq<char>>
    decreases tracks_out.len(),
{
    if tracks_out.len() == 0 {
        acc
    } else {
        let a = merged_mappings(acc, tracks_out.drop_last(), outgoing, sources);
        let e = tracks_out.last();
        let src = e.1;
        match mapping_of(e.0, src.0, outgoing, sources) {
            Some(t) => if a.contains(t) {
                a
            } else {
                a.push(t)
            },
            None => a,
        }
    }
}

/// The mappings of the tracks in `tracks_out` whose kind is listed for
/// their source and media id and whose source has a DID in `dids`.
pub open spec fn departure_mappings(
    tracks_out: Seq<(Seq<char>, (ParticipantId, Seq<char>))>,
    outgoing: Seq<((ParticipantId, MediaKind), Seq<char>)>,
    dids: Seq<(ParticipantId, Seq<char>)>,
) -> Seq<Seq<char>>
    decreases tracks_out.len(),
{
    if tracks_out.len() == 0 {
        seq![]
    } else {
        let rest = departure_mappings(tracks_out.drop_last(), outgoing, dids);
        let e = tracks_out.last();
        let src = e.1;
        match (outgoing_kind_for(outgoing, src.0, e.0), lookup(dids, src.0)) {
            (Some(kind), Some(did)) => rest.push(mapping_text(e.0, did, kind)),
            _ => rest,
        }
    }
}

/// Formats a track mapping entry as "mid:ownerDid:kind".
pub fn format_track_mapping(mid: &String, owner_did: &String, kind: MediaKind) -> (s: String)
    ensures
        s@ == mapping_text(mid@, owner_did@, kind),
{
    let colon = ":";
    proof {
        reveal_strlit(":");
    }
    let mut s = mid.clone();
    s.append(colon);
    s.append(owner_did.as_str());
    s.append(colon);
    let label = media_kind_label(kind);
    s.append(label.as_str());
    s
}

/// A copy of a list of tracks.
pub fn copy_tracks(tracks: &Vec<TrackIn>) -> (r: Vec<TrackIn>)
    ensures
        in_view(r@) == in_view(tracks@),
{
    let mut r: Vec<TrackIn> = Vec::new();
    let mut i: usize = 0;
    while i < tracks.len()
        invariant
            i <= tracks@.len(),
            in_view(r@) == in_view(tracks@).take(i as int),
        decreases tracks@.len() - i,
    {
        let ghost prev = r@;
        let t = TrackIn { mid: tracks[i].mid.clone(), kind: tracks[i].kind };
        r.push(t);
        proof {
            assert(r@ == prev.push(t));
            assert(in_view(r@) =~= in_view(prev).push((t.mid@, t.kind)));
            assert(in_view(r@) =~= in_view(tracks@).take(i + 1));
        }
        i = i + 1;
    }
    proof {
        assert(in_view(tracks@).take(i as int) =~= in_view(tracks@));
    }
    r
}

/// For a given peer, the source tracks of the room it does not receive
/// yet: for every source other than the peer, each track whose (source,
/// kind) has no outgoing track to the peer.
pub fn find_missing_receive_tracks(peer: &SfuPeer, sources: &Vec<TrackSource>) -> (r: Vec<MissingTrack>)
    ensures
        missing_view(r@) == missing_tracks(peer@.id, peer@.outgoing, sources_view(sources@)),
{
    let ghost sv = sources_view(sources@);
    let mut missing: Vec<MissingTrack> = Vec::new();
    let mut i: usize = 0;
    while i < sources.len()
        invariant
            i <= sources@.len(),
            sv == sources_view(sources@),
            missing_view(missing@) == missing_tracks(peer@.id, peer@.outgoing, sv.take(i as int)),
        decreases sources@.len() - i,
    {
        let src = &sources[i];
        proof {
            assert(sv.take(i + 1).drop_last() =~= sv.take(i as int));
            assert(sv.take(i + 1).last() == source_view(*src));
        }
        if src.pid != peer.id {
            let ghost base = missing_view(missing@);
            let ghost tv = in_view(src.tracks@);
            let mut j: usize = 0;
            while j < src.tracks.len()
                invariant
                    j <= src.tracks@.len(),
                    tv == in_view(src.tracks@),
                    missing_view(missing@) == base + missing_for_source(peer@.outgoing, src.pid, src.did@, tv.take(j as int)),
                decreases src.tracks@.len() - j,
            {
                let t = &src.tracks[j];
                proof {
                    assert(tv.take(j + 1).drop_last() =~= tv.take(j as int));
                    assert(tv.take(j + 1).last() == (t.mid@, t.kind));
                }
                let ghost prev = missing@;
                if !peer.has_outgoing(src.pid, t.kind) {
                    let m = MissingTrack {
                        source: src.pid,
                        source_mid: t.mid.clone(),
                        kind: t.kind,
                        source_did: src.did.clone(),
                    };
                    missing.push(m);
                    proof {
                        assert(missing@ == prev.push(m));
                        assert(missing_view(missing@) =~= missing_view(prev).push(
                            (m.source, m.source_mid@, m.kind, m.source_did@),
                        ));
                    }
                }
                proof {
                    assert(missing_view(missing@) =~= base + missing_for_source(
                        peer@.outgoing,
                        src.pid,
                        src.did@,
                        tv.take(j + 1),
                    ));
                }
                j = j + 1;
            }
            proof {
                assert(tv.take(j as int) =~= tv);
            }
        }
        proof {
            assert(missing_view(missing@) =~= missing_tracks(peer@.id, peer@.outgoing, sv.take(i + 1)));
        }
        i = i + 1;
    }
    proof {
        assert(sv.take(i as int) =~= sv);
    }
    missing
}

/// Records, for each missing track in order, that it now goes to the
/// peer on the matching new media id: its (source, kind) maps to that id,
/// and that id maps to its source track.
pub fn record_new_tracks(peer: &mut SfuPeer, missing: &Vec<MissingTrack>, mids: &Vec<String>)
    requires
        peer_wf(old(peer)@),
        missing@.len() == mids@.len(),
    ensures
        final(peer)@ == with_new_tracks(old(peer)@, missing_view(missing@), strings_of(mids@)),
        peer_wf(final(peer)@),
        final(peer).rtc == old(peer).rtc,
{
    let ghost p0 = peer@;
    let ghost mv = missing_view(missing@);
    let ghost sv = strings_of(mids@);
    let mut k: usize = 0;
    while k < missing.len()
        invariant
            k <= missing@.len(),
            missing@.len() == mids@.len(),
            mv == missing_view(missing@),
            sv == strings_of(mids@),
            peer@ == with_new_tracks(p0, mv.take(k as int), sv.take(k as int)),
            peer_wf(peer@),
            peer.rtc == old(peer).rtc,
        decreases missing@.len() - k,
    {
        let m = &missing[k];
        let mid = &mids[k];
        proof {
            assert(mv.take(k + 1).drop_last() =~= mv.take(k as int));
            assert(sv.take(k + 1).drop_last() =~= sv.take(k as int));
            assert(mv.take(k + 1).last() == (m.source, m.source_mid@, m.kind, m.source_did@));
            assert(sv.take(k + 1).last() == mid@);
        }
        peer.add_outgoing(m.source, m.kind, mid.clone());
        peer.add_track_out(mid.clone(), m.source, m.source_mid.clone());
        k = k + 1;
    }
    proof {
        assert(mv.take(k as int) =~= mv);
        assert(sv.take(k as int) =~= sv);
    }
}

/// The mappings of the new tracks: for each missing track, its new media
/// id, its source's DID and its kind.
pub fn new_track_mappings(missing: &Vec<MissingTrack>, mids: &Vec<String>) -> (r: Vec<String>)
    requires
        missing@.len() == mids@.len(),
    ensures
        strings_of(r@) == new_mappings(missing_view(missing@), strings_of(mids@)),
{
    let mut r: Vec<String> = Vec::new();
    let mut k: usize = 0;
    while k < mids.len()
        invariant
            k <= mids@.len(),
            missing@.len() == mids@.len(),
            strings_of(r@) == new_mappings(missing_view(missing@), strings_of(mids@)).take(k as int),
        decreases mids@.len() - k,
    {
        let ghost prev = r@;
        let t = format_track_mapping(&mids[k], &missing[k].source_did, missing[k].kind);
        r.push(t);
        proof {
            assert(r@ == prev.push(t));
            assert(strings_of(r@) =~= strings_of(prev).push(t@));
            let kk = k as int;
            assert(missing_view(missing@)[kk] == (missing@[kk].source, missing@[kk].source_mid@, missing@[kk].kind, missing@[kk].source_did@));
            assert(strings_of(mids@)[kk] == mids@[kk]@);
            assert(strings_of(r@) =~= new_mappings(missing_view(missing@), strings_of(mids@)).take(k + 1));
        }
        k = k + 1;
    }
    proof {
        assert(new_mappings(missing_view(missing@), strings_of(mids@)).take(k as int) =~= new_mappings(
            missing_view(missing@),
            strings_of(mids@),
        ));
    }
    r
}

/// Whether `list` holds `s`.
pub fn contains_string(list: &Vec<String>, s: &String) -> (r: bool)
    ensures
        r == strings_of(list@).contains(s@),
{
    let mut i: usize = 0;
    while i < list.len()
        invariant
            i <= list@.len(),
            forall|j: int| 0 <= j < i ==> list@[j]@ != s@,
        decreases list@.len() - i,
    {
        if list[i] == *s {
            proof {
                assert(strings_of(list@)[i as int] == s@);
            }
            return true;
        }
        i = i + 1;
    }
    proof {
        assert forall|j: int| 0 <= j < strings_of(list@).len() implies strings_of(list@)[j] != s@ by {
            assert(strings_of(list@)[j] == list@[j]@);
        }
    }
    false
}

/// The DID of the first source whose participant is `pid`, if any.
fn source_did(sources: &Vec<TrackSource>, pid: ParticipantId) -> (r: Option<String>)
    ensures
        match r {
            Some(d) => exists|k: int| is_first_source(sources_view(sources@), pid, k) && d@ == sources_view(sources@)[k].1,
            None => !exists|k: int| is_first_source(sources_view(sources@), pid, k),
        },
{
    let ghost sv = sources_view(sources@);
    let mut i: usize = 0;
    while i < sources.len()
        invariant
            i <= sources@.len(),
            sv == sources_view(sources@),
            forall|j: int| 0 <= j < i ==> sv[j].0 != pid,
        decreases sources@.len() - i,
    {
        if sources[i].pid == pid {
            proof {
                assert(is_first_source(sv, pid, i as int));
            }
            return Some(sources[i].did.clone());
        }
        i = i + 1;
    }
    proof {
        assert forall|k: int| !is_first_source(sv, pid, k) by {
            if 0 <= k < sv.len() {
                assert(sv[k].0 != pid);
            }
        }
    }
    None
}

/// The track mappings of a server offer: the given new mappings, then the
/// mapping of every track we send the peer whose source is in `sources`
/// and whose kind is listed, each only once.
pub fn offer_track_mappings(peer: &SfuPeer, sources: &Vec<TrackSource>, new: Vec<String>) -> (r: Vec<String>)
    ensures
        strings_of(r@) == merged_mappings(
            strings_of(new@),
            peer@.tracks_out,
            peer@.outgoing,
            sources_view(sources@),
        ),
{
    let ghost ov = peer@.tracks_out;
    let ghost sv = sources_view(sources@);
    let ghost nv = strings_of(new@);
    let mut all = new;
    let mut i: usize = 0;
    while i < peer.tracks_out.len()
        invariant
            i <= peer.tracks_out@.len(),
            ov == peer@.tracks_out,
            sv == sources_view(sources@),
            strings_of(all@) == merged_mappings(nv, ov.take(i as int), peer@.outgoing, sv),
        decreases peer.tracks_out@.len() - i,
    {
        let out = &peer.tracks_out[i];
        proof {
            assert(ov.take(i + 1).drop_last() =~= ov.take(i as int));
            assert(ov.take(i + 1).last() == ov[i as int]);
            assert(ov[i as int] == (out.mid@, (out.source, out.source_mid@)));
        }
        let ghost prev = all@;
        match source_did(sources, out.source) {
            Some(did) => {
                proof {
                    let k = choose|k: int| is_first_source(sv, out.source, k) && did@ == sv[k].1;
                    let c = choose|c: int| is_first_source(sv, out.source, c);
                    if k < c {
                        assert(sv[k].0 == out.source);
                    }
                    if c < k {
                        assert(sv[c].0 == out.source);
                    }
                }
                match peer.outgoing_kind_of_mid(&out.mid) {
                    Some(kind) => {
                        let entry = format_track_mapping(&out.mid, &did, kind);
                        if !contains_string(&all, &entry) {
                            all.push(entry);
                            proof {
                                assert(all@ == prev.push(entry));
                                assert(strings_of(all@) =~= strings_of(prev).push(entry@));
                            }
                        }
                    },
                    None => {},
                }
            },
            None => {},
        }
        proof {
            assert(strings_of(all@) == merged_mappings(nv, ov.take(i + 1), peer@.outgoing, sv));
        }
        i = i + 1;
    }
    proof {
        assert(ov.take(i as int) =~= ov);
    }
    all
}

/// The DID of `pid` in `dids`, if any.
fn did_of(dids: &Vec<(ParticipantId, String)>, pid: ParticipantId) -> (r: Option<String>)
    requires
        keys_distinct(dids_view(dids@)),
    ensures
        opt_string_view(r) == lookup(dids_view(dids@), pid),
{
    let ghost dv = dids_view(dids@);
    let mut i: usize = 0;
    while i < dids.len()
        invariant
            i <= dids@.len(),
            dv == dids_view(dids@),
            keys_distinct(dv),
            forall|j: int| 0 <= j < i ==> dv[j].0 != pid,
        decreases dids@.len() - i,
    {
        if dids[i].0 == pid {
            proof {
                crate::assoc::lemma_key_pos_unique(dv, pid, i as int);
            }
            return Some(dids[i].1.clone());
        }
        i = i + 1;
    }
    None
}

pub open spec fn opt_string_view(o: Option<String>) -> Option<Seq<char>> {
    match o {
        Some(s) => Some(s@),
        None => None,
    }
}

pub open spec fn dids_view(dids: Seq<(ParticipantId, String)>) -> Seq<(ParticipantId, Seq<char>)> {
    dids.map_values(|e: (ParticipantId, String)| (e.0, e.1@))
}

/// The track mappings sent to a peer after a participant left: for each
/// track we still send it whose kind is listed for its source and media id
/// and whose source has a DID in `dids`, its mapping.
pub fn departure_track_mappings(peer: &SfuPeer, dids: &Vec<(ParticipantId, String)>) -> (r: Vec<String>)
    requires
        keys_distinct(dids_view(dids@)),
    ensures
        strings_of(r@) == departure_mappings(peer@.tracks_out, peer@.outgoing, dids_view(dids@)),
{
    let ghost ov = peer@.tracks_out;
    let ghost dv = dids_view(dids@);
    let mut all: Vec<String> = Vec::new();
    let mut i: usize = 0;
    while i < peer.tracks_out.len()
        invariant
            i <= peer.tracks_out@.len(),
            ov == peer@.tracks_out,
            dv == dids_view(dids@),
            keys_distinct(dv),
            strings_of(all@) == departure_mappings(ov.take(i as int), peer@.outgoing, dv),
        decreases peer.tracks_out@.len() - i,
    {
        let out = &peer.tracks_out[i];
        proof {
            assert(ov.take(i + 1).drop_last() =~= ov.take(i as int));
            assert(ov.take(i + 1).last() == ov[i as int]);
            assert(ov[i as int] == (out.mid@, (out.source, out.source_mid@)));
        }
        let ghost prev = all@;
        let kind = peer.outgoing_kind_for(out.source, &out.mid);
        let did = did_of(dids, out.source);
        match (kind, did) {
            (Some(k), Some(d)) => {
                let entry = format_track_mapping(&out.mid, &d, k);
                all.push(entry);
                proof {
                    assert(all@ == prev.push(entry));
                    assert(strings_of(all@) =~= strings_of(prev).push(entry@));
                }
            },
            _ => {},
        }
        proof {
            assert(strings_of(all@) == departure_mappings(ov.take(i + 1), peer@.outgoing, dv));
        }
        i = i + 1;
    }
    proof {
        assert(ov.take(i as int) =~= ov);
    }
    all
}

/// Recording new tracks changes only the two send tables.
pub proof fn lemma_with_new_tracks_fields(
    p: PeerView,
    missing: Seq<(ParticipantId, Seq<char>, MediaKind, Seq<char>)>,
    mids: Seq<Seq<char>>,
    pending: bool,
)
    ensures
        with_new_tracks(p, missing, mids) == (PeerView {
            tracks_out: with_new_tracks(p, missing, mids).tracks_out,
            outgoing: with_new_tracks(p, missing, mids).outgoing,
            ..p
        }),
        with_new_tracks(PeerView { has_pending_offer: pending, ..p }, missing, mids) == (PeerView {
            has_pending_offer: pending,
            ..with_new_tracks(p, missing, mids)
        }),
    decreases missing.len(),
{
    if missing.len() > 0 && mids.len() > 0 {
        lemma_with_new_tracks_fields(p, missing.drop_last(), mids.drop_last(), pending);
    }
}

/// Every track of every source other than `pid` has its (source, kind) in
/// `outgoing`.
pub open spec fn receives_all(
    pid: ParticipantId,
    outgoing: Seq<((ParticipantId, MediaKind), Seq<char>)>,
    sources: Seq<(ParticipantId, Seq<char>, Seq<(Seq<char>, MediaKind)>)>,
) -> bool {
    forall|i: int, j: int|
        0 <= i < sources.len() && sources[i].0 != pid && 0 <= j < sources[i].2.len() ==> has_key(
            outgoing,
            (sources[i].0, #[trigger] sources[i].2[j].1),
        )
}

/// Recording new tracks keeps the keys of the outgoing table distinct,
/// keeps every key there was, and adds the (source, kind) of each missing
/// track.
proof fn lemma_with_new_tracks_keys(
    p: PeerView,
    missing: Seq<(ParticipantId, Seq<char>, MediaKind, Seq<char>)>,
    mids: Seq<Seq<char>>,
)
    requires
        keys_distinct(p.outgoing),
        mids.len() == missing.len(),
    ensures
        keys_distinct(with_new_tracks(p, missing, mids).outgoing),
        forall|q: (ParticipantId, MediaKind)|
            has_key(p.outgoing, q) ==> has_key(#[trigger] with_new_tracks(p, missing, mids).outgoing, q),
        forall|k: int|
            0 <= k < missing.len() ==> has_key(
                with_new_tracks(p, missing, mids).outgoing,
                (#[trigger] missing[k].0, missing[k].2),
            ),
    decreases missing.len(),
{
    if missing.len() > 0 {
        let init = missing.drop_last();
        lemma_with_new_tracks_keys(p, init, mids.drop_last());
        let q = with_new_tracks(p, init, mids.drop_last());
        let m = missing.last();
        lemma_map_insert(q.outgoing, (m.0, m.2), mids.last());
        let w = with_new_tracks(p, missing, mids);
        assert(w.outgoing == map_insert(q.outgoing, (m.0, m.2), mids.last()));
        assert forall|k: int| 0 <= k < missing.len() implies has_key(w.outgoing, (#[trigger] missing[k].0, missing[k].2)) by {
            if k < init.len() {
                assert(init[k] == missing[k]);
                assert(has_key(q.outgoing, (init[k].0, init[k].2)));
            }
        }
    }
}

/// Every track of a source other than `pid` either has its (source, kind)
/// in `outgoing` or is among the missing tracks.
proof fn lemma_missing_covers(
    pid: ParticipantId,
    outgoing: Seq<((ParticipantId, MediaKind), Seq<char>)>,
    sources: Seq<(ParticipantId, Seq<char>, Seq<(Seq<char>, MediaKind)>)>,
)
    ensures
        forall|i: int, j: int|
            0 <= i < sources.len() && sources[i].0 != pid && 0 <= j < sources[i].2.len() ==> has_key(
                outgoing,
                (sources[i].0, #[trigger] sources[i].2[j].1),
            ) || exists|k: int|
                0 <= k < missing_tracks(pid, outgoing, sources).len() && (#[trigger] missing_tracks(
                    pid,
                    outgoing,
                    sources,
                )[k]).0 == sources[i].0 && missing_tracks(pid, outgoing, sources)[k].2 == sources[i].2[j].1,
    decreases sources.len(),
{
    if sources.len() > 0 {
        let init = sources.drop_last();
        lemma_missing_covers(pid, outgoing, init);
        let rest = missing_tracks(pid, outgoing, init);
        let all = missing_tracks(pid, outgoing, sources);
        let s = sources.last();
        let n = sources.len() - 1;
        assert(sources[n] == s);
        if s.0 != pid {
            let ms = missing_for_source(outgoing, s.0, s.1, s.2);
            assert(all == rest + ms);
            lemma_missing_for_source_covers(outgoing, s.0, s.1, s.2);
        }
        assert forall|i: int, j: int|
            0 <= i < sources.len() && sources[i].0 != pid && 0 <= j < sources[i].2.len() && !has_key(
                outgoing,
                (sources[i].0, #[trigger] sources[i].2[j].1),
            ) implies exists|k: int|
            0 <= k < all.len() && (#[trigger] all[k]).0 == sources[i].0 && all[k].2 == sources[i].2[j].1 by {
            if i < n {
                assert(init[i] == sources[i]);
                assert(init[i].2[j] == sources[i].2[j]);
                let k = choose|k: int| 0 <= k < rest.len() && (#[trigger] rest[k]).0 == init[i].0 && rest[k].2 == init[i].2[j].1;
                if s.0 != pid {
                    assert(all[k] == rest[k]);
                } else {
                    assert(all == rest);
                }
                assert(all[k].0 == sources[i].0);
            } else {
                let ms = missing_for_source(outgoing, s.0, s.1, s.2);
                let k = choose|k: int| 0 <= k < ms.len() && (#[trigger] ms[k]).0 == s.0 && ms[k].2 == s.2[j].1;
                assert(all[rest.len() + k] == ms[k]);
            }
        }
    }
}

/// The missing tracks of one source cover those of its tracks whose
/// (source, kind) is not in `outgoing`.
proof fn lemma_missing_for_source_covers(
    outgoing: Seq<((ParticipantId, MediaKind), Seq<char>)>,
    src: ParticipantId,
    did: Seq<char>,
    tracks: Seq<(Seq<char>, MediaKind)>,
)
    ensures
        forall|j: int|
            0 <= j < tracks.len() && !has_key(outgoing, (src, #[trigger] tracks[j].1)) ==> exists|k: int|
                0 <= k < missing_for_source(outgoing, src, did, tracks).len() && (#[trigger] missing_for_source(
                    outgoing,
                    src,
                    did,
                    tracks,
                )[k]).0 == src && missing_for_source(outgoing, src, did, tracks)[k].2 == tracks[j].1,
    decreases tracks.len(),
{
    if tracks.len() > 0 {
        let init = tracks.drop_last();
        lemma_missing_for_source_covers(outgoing, src, did, init);
        let rest = missing_for_source(outgoing, src, did, init);
        let all = missing_for_source(outgoing, src, did, tracks);
        let n = tracks.len() - 1;
        assert forall|j: int| 0 <= j < tracks.len() && !has_key(outgoing, (src, #[trigger] tracks[j].1)) implies exists|k: int|
            0 <= k < all.len() && (#[trigger] all[k]).0 == src && all[k].2 == tracks[j].1 by {
            if j < n {
                assert(init[j] == tracks[j]);
                let k = choose|k: int| 0 <= k < rest.len() && (#[trigger] rest[k]).0 == src && rest[k].2 == init[j].1;
                assert(all[k] == rest[k]);
            } else {
                assert(all[rest.len() as int] == (src, tracks.last().0, tracks.last().1, did));
            }
        }
    }
}

/// A peer that receives every track of the sources lacks none.
proof fn lemma_receives_all_lacks_nothing(
    pid: ParticipantId,
    outgoing: Seq<((ParticipantId, MediaKind), Seq<char>)>,
    sources: Seq<(ParticipantId, Seq<char>, Seq<(Seq<char>, MediaKind)>)>,
)
    requires
        receives_all(pid, outgoing, sources),
    ensures
        missing_tracks(pid, outgoing, sources).len() == 0,
    decreases sources.len(),
{
    if sources.len() > 0 {
        let init = sources.drop_last();
        assert forall|i: int, j: int|
            0 <= i < init.len() && init[i].0 != pid && 0 <= j < init[i].2.len() implies has_key(
            outgoing,
            (init[i].0, #[trigger] init[i].2[j].1),
        ) by {
            assert(init[i] == sources[i]);
            assert(init[i].2[j] == sources[i].2[j]);
        }
        lemma_receives_all_lacks_nothing(pid, outgoing, init);
        let s = sources.last();
        assert(sources[sources.len() - 1] == s);
        if s.0 != pid {
            lemma_source_lacks_nothing(outgoing, s.0, s.1, s.2);
        }
    }
}

/// A source whose every track has its (source, kind) in `outgoing` has no
/// missing track.
proof fn lemma_source_lacks_nothing(
    outgoing: Seq<((ParticipantId, MediaKind), Seq<char>)>,
    src: ParticipantId,
    did: Seq<char>,
    tracks: Seq<(Seq<char>, MediaKind)>,
)
    requires
        forall|j: int| 0 <= j < tracks.len() ==> has_key(outgoing, (src, #[trigger] tracks[j].1)),
    ensures
        missing_for_source(outgoing, src, did, tracks).len() == 0,
    decreases tracks.len(),
{
    if tracks.len() > 0 {
        let init = tracks.drop_last();
        assert forall|j: int| 0 <= j < init.len() implies has_key(outgoing, (src, #[trigger] init[j].1)) by {
            assert(init[j] == tracks[j]);
        }
        lemma_source_lacks_nothing(outgoing, src, did, init);
        assert(tracks[tracks.len() - 1] == tracks.last());
    }
}

/// Sending a peer each of the tracks it lacks, on any media ids, leaves it
/// lacking none of them.
pub proof fn lemma_new_tracks_complete(
    p: PeerView,
    sources: Seq<(ParticipantId, Seq<char>, Seq<(Seq<char>, MediaKind)>)>,
    mids: Seq<Seq<char>>,
)
    requires
        peer_wf(p),
        mids.len() == missing_tracks(p.id, p.outgoing, sources).len(),
    ensures
        missing_tracks(
            p.id,
            with_new_tracks(p, missing_tracks(p.id, p.outgoing, sources), mids).outgoing,
            sources,
        ).len() == 0,
{
    let missing = missing_tracks(p.id, p.outgoing, sources);
    let w = with_new_tracks(p, missing, mids);
    lemma_with_new_tracks_keys(p, missing, mids);
    lemma_missing_covers(p.id, p.outgoing, sources);
    assert forall|i: int, j: int|
        0 <= i < sources.len() && sources[i].0 != p.id && 0 <= j < sources[i].2.len() implies has_key(
        w.outgoing,
        (sources[i].0, #[trigger] sources[i].2[j].1),
    ) by {
        if !has_key(p.outgoing, (sources[i].0, sources[i].2[j].1)) {
            let k = choose|k: int| 0 <= k < missing.len() && (#[trigger] missing[k]).0 == sources[i].0 && missing[k].2 == sources[i].2[j].1;
            assert(has_key(w.outgoing, (missing[k].0, missing[k].2)));
        }
    }
    lemma_receives_all_lacks_nothing(p.id, w.outgoing, sources);
}

} // verus!
