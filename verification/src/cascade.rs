//! Cascaded SFU: the cluster of SFU nodes that serve the same rooms and
//! the pipe transports (peer connections between nodes) that relay media
//! across the cluster.
use vstd::prelude::*;
use crate::rtc::PendingOffer;
use str0m::media::MediaData;
use crate::assoc::{
    has_key, key_pos, keys_distinct, lemma_key_pos_unique, lemma_map_insert, lookup, map_insert,
};
use crate::ids::{parse_room_key, room_key, MediaKind, RoomId};
use crate::peer::{in_view, TrackIn};
use crate::rtc::{
    Connection, ConnectionEvent,
    sdp_answer_json_error, sdp_offer_json_error, rtc_disconnect, rtc_sdp_api, rtc_write, sdp_accept_answer, sdp_accept_offer, sdp_answer_from_json,
    sdp_answer_to_json, sdp_apply, sdp_offer_from_json, sdp_offer_to_json,
};

verus! {

/// A remote SFU node of the cluster, as it last announced itself.
pub struct SfuNodeInfo {
    pub did: String,
    pub participant_count: u32,
    pub capacity_hint: u32,
}

/// What the cascade logic reads of a node: its load and capacity.
pub open spec fn node_load(n: SfuNodeInfo) -> (Seq<char>, (u32, u32)) {
    (n.did@, (n.participant_count, n.capacity_hint))
}

pub open spec fn nodes_view(s: Seq<SfuNodeInfo>) -> Seq<(Seq<char>, (u32, u32))> {
    s.map_values(|n: SfuNodeInfo| node_load(n))
}

impl SfuNodeInfo {
    /// A copy of this node record.
    pub fn copy(&self) -> (r: SfuNodeInfo)
        ensures
            node_load(r) == node_load(*self),
    {
        SfuNodeInfo {
            did: self.did.clone(),
            participant_count: self.participant_count,
            capacity_hint: self.capacity_hint,
        }
    }
}

/// Messages for cluster discovery and pipe transport signalling, sent on
/// the neighbourhood's signalling channel.
pub enum CascadeSignal {
    /// "I am an SFU node for this room".
    Announce { did: String, room_id: String, participant_count: u32, capacity_hint: u32 },
    /// SDP offer for a pipe transport between two nodes.
    PipeOffer { from_did: String, to_did: String, room_id: String, sdp_offer: String },
    /// SDP answer for a pipe transport.
    PipeAnswer { from_did: String, to_did: String, room_id: String, sdp_answer: String },
    /// A node leaves the cluster.
    Leave { did: String, room_id: String },
}

/// A pipe transport: a peer connection to a remote SFU node.
pub struct PipeTransport {
    pub remote_did: String,
    pub rtc: Connection,
    pub room_id: RoomId,
    /// Tracks the remote node sends us.
    pub tracks_in: Vec<TrackIn>,
    /// Tracks we send the remote node: our media id and its source's.
    pub tracks_out: Vec<(String, String)>,
    pub established: bool,
    /// Our offer that awaits the remote node's answer.
    pub pending_offer: Option<PendingOffer>,
}

/// What the cascade logic reads of a pipe.
pub struct PipeView {
    pub remote_did: Seq<char>,
    pub room: (Seq<char>, Seq<char>),
    pub tracks_in: Seq<(Seq<char>, MediaKind)>,
    pub tracks_out: Seq<Seq<char>>,
    pub established: bool,
    pub has_pending_offer: bool,
}

impl View for PipeTransport {
    type V = PipeView;

    open spec fn view(&self) -> PipeView {
        PipeView {
            remote_did: self.remote_did@,
            room: self.room_id@,
            tracks_in: in_view(self.tracks_in@),
            tracks_out: self.tracks_out@.map_values(|e: (String, String)| e.0@),
            established: self.established,
            has_pending_offer: self.pending_offer is Some,
        }
    }
}

/// The nodes known for one room.
pub struct RoomNodes {
    pub room: String,
    pub nodes: Vec<SfuNodeInfo>,
}

/// A pipe with its key: the room's text form and the remote node's DID.
pub struct PipeEntry {
    pub room_key: String,
    pub remote_did: String,
    pub pipe: PipeTransport,
}

pub open spec fn known_view(s: Seq<RoomNodes>) -> Seq<(Seq<char>, Seq<(Seq<char>, (u32, u32))>)> {
    s.map_values(|r: RoomNodes| (r.room@, nodes_view(r.nodes@)))
}

pub open spec fn pipes_view(s: Seq<PipeEntry>) -> Seq<((Seq<char>, Seq<char>), PipeView)> {
    s.map_values(|e: PipeEntry| ((e.room_key@, e.remote_did@), e.pipe@))
}

/// The known nodes of a room, empty where none is known.
pub open spec fn room_nodes(known: Seq<(Seq<char>, Seq<(Seq<char>, (u32, u32))>)>, room: Seq<char>) -> Seq<
    (Seq<char>, (u32, u32)),
> {
    match lookup(known, room) {
        Some(n) => n,
        None => seq![],
    }
}

/// Whether a node can take one more participant: at capacity, it must be
/// below its capacity; otherwise one more must still fit.
pub open spec fn can_take(n: (Seq<char>, (u32, u32)), at_capacity: bool) -> bool {
    let load = n.1;
    if at_capacity {
        load.0 < load.1
    } else {
        load.0 + 1 <= load.1
    }
}

/// `i` is the first of the least-loaded nodes that can take a participant.
pub open spec fn is_least_loaded(nodes: Seq<(Seq<char>, (u32, u32))>, at_capacity: bool, i: int) -> bool {
    &&& 0 <= i < nodes.len()
    &&& can_take(nodes[i], at_capacity)
    &&& forall|j: int|
        0 <= j < nodes.len() && can_take(nodes[j], at_capacity) ==> nodes[i].1.0 <= nodes[j].1.0
    &&& forall|j: int|
        0 <= j < i && can_take(nodes[j], at_capacity) ==> nodes[j].1.0 > nodes[i].1.0
}

/// The node, by position, to which a new participant of a room is
/// redirected, given this node's `local_count` participants and its
/// `max_per_node`: below capacity, the least-loaded node only where it has
/// more than two participants fewer; at capacity, the least-loaded node
/// that is below its own capacity.
pub open spec fn redirect_choice(
    known: Seq<(Seq<char>, Seq<(Seq<char>, (u32, u32))>)>,
    room: Seq<char>,
    local_count: u32,
    max_per_node: u32,
) -> Option<int> {
    if !has_key(known, room) {
        None
    } else {
        let nodes = room_nodes(known, room);
        let at_capacity = local_count >= max_per_node;
        if exists|i: int| is_least_loaded(nodes, at_capacity, i) {
            let i = choose|i: int| is_least_loaded(nodes, at_capacity, i);
            if at_capacity || nodes[i].1.0 + 2 < local_count {
                Some(i)
            } else {
                None
            }
        } else {
            None
        }
    }
}

/// The pipes, by position, that media of `room` goes to: those of the room
/// that are established and not to the excluded node.
pub open spec fn forward_candidates(
    pipes: Seq<((Seq<char>, Seq<char>), PipeView)>,
    room: Seq<char>,
    exclude: Option<Seq<char>>,
) -> Seq<int>
    decreases pipes.len(),
{
    if pipes.len() == 0 {
        seq![]
    } else {
        let r = forward_candidates(pipes.drop_last(), room, exclude);
        let e = pipes.last();
        let key = e.0;
        if key.0 == room && exclude != Some(key.1) && e.1.established {
            r.push(pipes.len() - 1)
        } else {
            r
        }
    }
}

/// The known nodes without `did`, in every room.
pub open spec fn without_node(
    known: Seq<(Seq<char>, Seq<(Seq<char>, (u32, u32))>)>,
    did: Seq<char>,
) -> Seq<(Seq<char>, Seq<(Seq<char>, (u32, u32))>)> {
    known.map_values(|e: (Seq<char>, Seq<(Seq<char>, (u32, u32))>)| (e.0, crate::assoc::map_remove(e.1, did)))
}

/// The pipes not to `did`.
pub open spec fn pipes_without(pipes: Seq<((Seq<char>, Seq<char>), PipeView)>, did: Seq<char>) -> Seq<
    ((Seq<char>, Seq<char>), PipeView),
>
    decreases pipes.len(),
{
    if pipes.len() == 0 {
        pipes
    } else {
        let r = pipes_without(pipes.drop_last(), did);
        let key = pipes.last().0;
        if key.1 == did {
            r
        } else {
            r.push(pipes.last())
        }
    }
}

/// The logs of the connections of the pipes to `did`, in order, each
/// closed: what the connections of those pipes were handed once they were
/// dropped.
pub open spec fn closed_logs_to(
    pipes: Seq<((Seq<char>, Seq<char>), PipeView)>,
    logs: Seq<Seq<ConnectionEvent>>,
    did: Seq<char>,
) -> Seq<Seq<ConnectionEvent>>
    decreases pipes.len(),
{
    if pipes.len() == 0 || logs.len() == 0 {
        seq![]
    } else {
        let r = closed_logs_to(pipes.drop_last(), logs.drop_last(), did);
        if pipes.last().0.1 == did {
            r.push(logs.last().push(ConnectionEvent::Disconnect))
        } else {
            r
        }
    }
}

/// The logs of the connections of the pipes not to `did`, in order.
pub open spec fn logs_not_to(
    pipes: Seq<((Seq<char>, Seq<char>), PipeView)>,
    logs: Seq<Seq<ConnectionEvent>>,
    did: Seq<char>,
) -> Seq<Seq<ConnectionEvent>>
    decreases pipes.len(),
{
    if pipes.len() == 0 || logs.len() == 0 {
        seq![]
    } else {
        let r = logs_not_to(pipes.drop_last(), logs.drop_last(), did);
        if pipes.last().0.1 == did {
            r
        } else {
            r.push(logs.last())
        }
    }
}

/// The pipe logs after a pipe whose connection has the log `log` was
/// recorded under `key`: it replaces a pipe under that key, whose
/// connection is then dropped, or comes last.
pub open spec fn new_pipe_logs(
    before: CascadeManager,
    after: CascadeManager,
    key: (Seq<char>, Seq<char>),
    log: Seq<ConnectionEvent>,
) -> bool {
    if has_key(before.pipe_views(), key) {
        let i = key_pos(before.pipe_views(), key);
        &&& after.pipe_logs() == before.pipe_logs().update(i, log)
        &&& after.dropped_logs() == before.dropped_logs().push(before.pipe_logs()[i])
    } else {
        &&& after.pipe_logs() == before.pipe_logs().push(log)
        &&& after.dropped_logs() == before.dropped_logs()
    }
}

/// What a pipe's connection was asked for to forward one frame: the media
/// ids it had been asked for, `before`, became `after` by its outgoing
/// tracks `tracks_out` in order: all of them where none was written
/// (`written` is none), else those up to and including the one written.
pub open spec fn tried_for_frame(
    tracks_out: Seq<Seq<char>>,
    before: Seq<Seq<char>>,
    after: Seq<Seq<char>>,
    written: Option<Seq<char>>,
) -> bool {
    match written {
        None => after == before + tracks_out,
        Some(m) => exists|n: int|
            0 < n <= tracks_out.len() && after == before + tracks_out.take(n) && #[trigger] tracks_out[n - 1] == m,
    }
}

/// The cascade cluster as one SFU node sees it.
pub struct CascadeManager {
    local_did: String,
    /// Socket address text of the local SFU server, for pipe candidates.
    local_addr: String,
    known_nodes: Vec<RoomNodes>,
    pipes: Vec<PipeEntry>,
    max_participants_per_node: u32,
    /// The logs of the connections of the pipes that were dropped, in order.
    dropped: Ghost<Seq<Seq<ConnectionEvent>>>,
}

impl CascadeManager {
    pub closed spec fn local(&self) -> Seq<char> {
        self.local_did@
    }

    /// The socket address text of the local SFU server.
    pub closed spec fn address(&self) -> Seq<char> {
        self.local_addr@
    }

    pub closed spec fn max_per_node(&self) -> u32 {
        self.max_participants_per_node
    }

    /// Known nodes per room (room text form, then DID to load).
    pub closed spec fn known(&self) -> Seq<(Seq<char>, Seq<(Seq<char>, (u32, u32))>)> {
        known_view(self.known_nodes@)
    }

    /// What the library had handed the connection of each pipe that was
    /// dropped, in the order they were dropped.
    pub closed spec fn dropped_logs(&self) -> Seq<Seq<ConnectionEvent>> {
        self.dropped@
    }

    /// The media ids for which each pipe's connection was asked for a
    /// writer, in pipe order.
    pub closed spec fn pipe_tries(&self) -> Seq<Seq<Seq<char>>> {
        self.pipes@.map_values(|e: PipeEntry| e.pipe.rtc.tries())
    }

    /// What the library handed each pipe's connection, in pipe order.
    pub closed spec fn pipe_logs(&self) -> Seq<Seq<ConnectionEvent>> {
        self.pipes@.map_values(|e: PipeEntry| e.pipe.rtc.log())
    }

    /// Pipes by (room text form, remote DID).
    pub closed spec fn pipe_views(&self) -> Seq<((Seq<char>, Seq<char>), PipeView)> {
        pipes_view(self.pipes@)
    }

    /// The invariant: rooms, the nodes of each room and pipe keys are
    /// distinct.
    pub closed spec fn wf(&self) -> bool {
        &&& keys_distinct(self.known())
        &&& forall|i: int| 0 <= i < self.known().len() ==> keys_distinct(#[trigger] self.known()[i].1)
        &&& keys_distinct(self.pipe_views())
    }

    /// A well-formed manager has distinct rooms, distinct nodes in each room
    /// and distinct pipe keys.
    pub proof fn lemma_wf_facts(&self)
        requires
            self.wf(),
        ensures
            keys_distinct(self.known()),
            forall|i: int| 0 <= i < self.known().len() ==> keys_distinct(#[trigger] self.known()[i].1),
            keys_distinct(self.pipe_views()),
    {
    }

    pub fn new(local_did: String, local_addr: String, max_participants_per_node: u32) -> (m: CascadeManager)
        ensures
            m.wf(),
            m.local() == local_did@,
            m.address() == local_addr@,
            m.max_per_node() == max_participants_per_node,
            m.known() == Seq::<(Seq<char>, Seq<(Seq<char>, (u32, u32))>)>::empty(),
            m.pipe_views() == Seq::<((Seq<char>, Seq<char>), PipeView)>::empty(),
            m.dropped_logs() == Seq::<Seq<ConnectionEvent>>::empty(),
    {
        let m = CascadeManager {
            local_did,
            local_addr,
            known_nodes: Vec::new(),
            pipes: Vec::new(),
            max_participants_per_node,
            dropped: Ghost(Seq::empty()),
        };
        proof {
            assert(m.known() =~= Seq::<(Seq<char>, Seq<(Seq<char>, (u32, u32))>)>::empty());
            assert(m.pipe_views() =~= Seq::<((Seq<char>, Seq<char>), PipeView)>::empty());
        }
        m
    }

    /// The socket address text of the local SFU server.
    pub fn local_addr(&self) -> (r: &String)
        ensures
            r@ == self.address(),
    {
        &self.local_addr
    }

    /// The signal that announces this node for a room.
    pub fn announce_sfu_node(&self, room_id: &RoomId, participant_count: u32) -> (s: CascadeSignal)
        ensures
            s matches CascadeSignal::Announce { did, room_id: r, participant_count: c, capacity_hint } && did@
                == self.local() && r@ == room_key(room_id@) && c == participant_count && capacity_hint
                == self.max_per_node(),
    {
        CascadeSignal::Announce {
            did: self.local_did.clone(),
            room_id: room_id.to_string(),
            participant_count,
            capacity_hint: self.max_participants_per_node,
        }
    }

    /// Position of the nodes of `room`.
    fn find_room(&self, room: &String) -> (r: Option<usize>)
        ensures
            match r {
                Some(i) => i < self.known().len() && self.known()[i as int].0 == room@,
                None => !has_key(self.known(), room@),
            },
    {
        let ghost kv = self.known();
        let mut i: usize = 0;
        while i < self.known_nodes.len()
            invariant
                i <= self.known_nodes@.len(),
                kv == known_view(self.known_nodes@),
                forall|j: int| 0 <= j < i ==> kv[j].0 != room@,
            decreases self.known_nodes@.len() - i,
        {
            if self.known_nodes[i].room == *room {
                return Some(i);
            }
            i = i + 1;
        }
        None
    }

    /// Records the announce of `did` for `room_id` with its load; our own
    /// announces are ignored.
    pub fn handle_sfu_announce(&mut self, did: String, room_id: String, participant_count: u32, capacity_hint: u32)
        requires
            old(self).wf(),
        ensures
            final(self).wf(),
            final(self).local() == old(self).local(),
            final(self).max_per_node() == old(self).max_per_node(),
            final(self).pipe_views() == old(self).pipe_views(),
            did@ == old(self).local() ==> final(self).known() == old(self).known(),
            did@ != old(self).local() ==> final(self).known() == map_insert(
                old(self).known(),
                room_id@,
                map_insert(room_nodes(old(self).known(), room_id@), did@, (participant_count, capacity_hint)),
            ),
    {
        if did == self.local_did {
            return;
        }
        let ghost kv = self.known();
        let ghost load = (participant_count, capacity_hint);
        let ghost didv = did@;
        let ghost roomv = room_id@;
        let info = SfuNodeInfo { did, participant_count, capacity_hint };
        proof {
            lemma_map_insert(kv, roomv, map_insert(room_nodes(kv, roomv), didv, load));
        }
        match self.find_room(&room_id) {
            Some(i) => {
                proof {
                    lemma_key_pos_unique(kv, roomv, i as int);
                    assert(room_nodes(kv, roomv) == kv[i as int].1);
                    assert(keys_distinct(kv[i as int].1));
                    lemma_map_insert(kv[i as int].1, didv, load);
                }
                Self::insert_node(&mut self.known_nodes[i].nodes, info);
                proof {
                    assert(self.known() =~= map_insert(kv, roomv, map_insert(room_nodes(kv, roomv), didv, load)));
                }
            },
            None => {
                let mut nodes: Vec<SfuNodeInfo> = Vec::new();
                proof {
                    assert(nodes_view(nodes@) =~= room_nodes(kv, roomv));
                    lemma_map_insert(room_nodes(kv, roomv), didv, load);
                }
                Self::insert_node(&mut nodes, info);
                self.known_nodes.push(RoomNodes { room: room_id, nodes });
                proof {
                    assert(self.known() =~= map_insert(kv, roomv, map_insert(room_nodes(kv, roomv), didv, load)));
                }
            },
        }
        proof {
            let nk = self.known();
            assert forall|j: int| 0 <= j < nk.len() implies keys_distinct(#[trigger] nk[j].1) by {
                if nk[j].0 != roomv {
                    assert(has_key(nk, nk[j].0));
                    lemma_key_pos_unique(nk, nk[j].0, j);
                    assert(lookup(nk, nk[j].0) == lookup(kv, nk[j].0));
                    let k = key_pos(kv, nk[j].0);
                    assert(kv[k].1 == nk[j].1);
                } else {
                    lemma_key_pos_unique(nk, roomv, j);
                }
            }
        }
    }

    /// Maps the node's DID to its record in `nodes`.
    fn insert_node(nodes: &mut Vec<SfuNodeInfo>, info: SfuNodeInfo)
        requires
            keys_distinct(nodes_view(old(nodes)@)),
        ensures
            nodes_view(final(nodes)@) == map_insert(nodes_view(old(nodes)@), info.did@, (
                info.participant_count,
                info.capacity_hint,
            )),
            keys_distinct(nodes_view(final(nodes)@)),
    {
        let ghost nv = nodes_view(nodes@);
        let ghost load = (info.participant_count, info.capacity_hint);
        proof {
            lemma_map_insert(nv, info.did@, load);
        }
        let mut i: usize = 0;
        let mut found: Option<usize> = None;
        while i < nodes.len()
            invariant
                i <= nodes@.len(),
                nv == nodes_view(nodes@),
                found is None ==> forall|j: int| 0 <= j < i ==> nv[j].0 != info.did@,
                found matches Some(k) ==> k < nodes@.len() && nv[k as int].0 == info.did@,
            decreases nodes@.len() - i,
        {
            if found.is_none() && nodes[i].did == info.did {
                found = Some(i);
            }
            i = i + 1;
        }
        match found {
            Some(k) => {
                proof {
                    lemma_key_pos_unique(nv, info.did@, k as int);
                }
                nodes.set(k, info);
            },
            None => {
                nodes.push(info);
            },
        }
        proof {
            assert(nodes_view(nodes@) =~= map_insert(nv, info.did@, load));
        }
    }

    /// The known nodes of a room, copied; none where the room is unknown.
    pub fn nodes_for_room(&self, room_id: &String) -> (r: Vec<SfuNodeInfo>)
        requires
            self.wf(),
        ensures
            nodes_view(r@) == room_nodes(self.known(), room_id@),
    {
        match self.find_room(room_id) {
            Some(i) => {
                proof {
                    lemma_key_pos_unique(self.known(), room_id@, i as int);
                }
                let nodes = &self.known_nodes[i].nodes;
                let mut r: Vec<SfuNodeInfo> = Vec::new();
                let mut k: usize = 0;
                while k < nodes.len()
                    invariant
                        k <= nodes@.len(),
                        nodes_view(r@) == nodes_view(nodes@).take(k as int),
                    decreases nodes@.len() - k,
                {
                    let ghost prev = r@;
                    let c = nodes[k].copy();
                    r.push(c);
                    proof {
                        assert(r@ == prev.push(c));
                        assert(nodes_view(r@) =~= nodes_view(prev).push(node_load(c)));
                        assert(nodes_view(nodes@)[k as int] == node_load(nodes@[k as int]));
                        assert(nodes_view(r@) =~= nodes_view(nodes@).take(k + 1));
                    }
                    k = k + 1;
                }
                proof {
                    assert(nodes_view(nodes@).take(k as int) =~= nodes_view(nodes@));
                }
                r
            },
            None => {
                let r: Vec<SfuNodeInfo> = Vec::new();
                proof {
                    assert(nodes_view(r@) =~= room_nodes(self.known(), room_id@));
                }
                r
            },
        }
    }

    /// Whether the room runs cascaded: some peer node is known for it.
    pub fn is_cascaded(&self, room_id: &String) -> (r: bool)
        requires
            self.wf(),
        ensures
            r == (room_nodes(self.known(), room_id@).len() > 0),
    {
        match self.find_room(room_id) {
            Some(i) => {
                proof {
                    lemma_key_pos_unique(self.known(), room_id@, i as int);
                }
                self.known_nodes[i].nodes.len() > 0
            },
            None => false,
        }
    }

    /// The first of the least-loaded nodes that can take a participant.
    fn least_loaded(nodes: &Vec<SfuNodeInfo>, at_capacity: bool) -> (r: Option<usize>)
        ensures
            match r {
                Some(i) => is_least_loaded(nodes_view(nodes@), at_capacity, i as int),
                None => !exists|i: int| is_least_loaded(nodes_view(nodes@), at_capacity, i),
            },
    {
        let ghost nv = nodes_view(nodes@);
        let mut best: Option<usize> = None;
        let mut i: usize = 0;
        while i < nodes.len()
            invariant
                i <= nodes@.len(),
                nv == nodes_view(nodes@),
                best is None ==> forall|j: int| 0 <= j < i ==> !can_take(nv[j], at_capacity),
                best matches Some(b) ==> b < i && can_take(nv[b as int], at_capacity) && (forall|j: int|
                    0 <= j < i && can_take(nv[j], at_capacity) ==> nv[b as int].1.0 <= nv[j].1.0) && (forall|j: int|
                    0 <= j < b && can_take(nv[j], at_capacity) ==> nv[j].1.0 > nv[b as int].1.0),
            decreases nodes@.len() - i,
        {
            let n = &nodes[i];
            let ok = if at_capacity {
                n.participant_count < n.capacity_hint
            } else {
                (n.participant_count as u64) + 1 <= (n.capacity_hint as u64)
            };
            proof {
                assert(nv[i as int] == node_load(*n));
                assert(ok == can_take(nv[i as int], at_capacity));
            }
            if ok {
                match best {
                    Some(b) => {
                        if n.participant_count < nodes[b].participant_count {
                            best = Some(i);
                        }
                    },
                    None => {
                        best = Some(i);
                    },
                }
            }
            i = i + 1;
        }
        proof {
            if best is None {
                assert forall|k: int| !is_least_loaded(nv, at_capacity, k) by {
                    if 0 <= k < nv.len() {
                        assert(!can_take(nv[k], at_capacity));
                    }
                }
            }
        }
        best
    }

    /// Picks the node to which a new participant of `room_id` is redirected
    /// (see `redirect_choice`); none means this node takes it.
    pub fn pick_redirect_node(&self, room_id: &String, local_count: u32) -> (r: Option<&SfuNodeInfo>)
        requires
            self.wf(),
        ensures
            match redirect_choice(self.known(), room_id@, local_count, self.max_per_node()) {
                Some(i) => r matches Some(n) && node_load(*n) == room_nodes(self.known(), room_id@)[i],
                None => r is None,
            },
    {
        let ri = match self.find_room(room_id) {
            Some(ri) => ri,
            None => {
                return None;
            },
        };
        proof {
            lemma_key_pos_unique(self.known(), room_id@, ri as int);
            assert(has_key(self.known(), room_id@));
            assert(room_nodes(self.known(), room_id@) == nodes_view(self.known_nodes@[ri as int].nodes@));
        }
        let nodes = &self.known_nodes[ri].nodes;
        let at_capacity = !(local_count < self.max_participants_per_node);
        let ghost nv = nodes_view(nodes@);
        match Self::least_loaded(nodes, at_capacity) {
            Some(i) => {
                proof {
                    let c = choose|c: int| is_least_loaded(nv, at_capacity, c);
                    if c < i {
                        assert(nv[c].1.0 > nv[i as int].1.0);
                        assert(nv[i as int].1.0 <= nv[c].1.0);
                    }
                    if i < c {
                        assert(nv[i as int].1.0 > nv[c].1.0);
                        assert(nv[c].1.0 <= nv[i as int].1.0);
                    }
                    assert(c == i);
                    assert(nv[i as int] == node_load(nodes@[i as int]));
                    assert(at_capacity == (local_count >= self.max_per_node()));
                }
                if at_capacity || (nodes[i].participant_count as u64) + 2 < (local_count as u64) {
                    proof {
                        assert(redirect_choice(self.known(), room_id@, local_count, self.max_per_node()) == Some(i as int));
                    }
                    Some(&nodes[i])
                } else {
                    proof {
                        assert(redirect_choice(self.known(), room_id@, local_count, self.max_per_node()) is None);
                    }
                    None
                }
            },
            None => {
                proof {
                    assert(nv == room_nodes(self.known(), room_id@));
                    assert(redirect_choice(self.known(), room_id@, local_count, self.max_per_node()) is None);
                }
                None
            },
        }
    }

    /// Position of the pipe of `room_key` to `remote_did`.
    fn find_pipe(&self, room_key: &String, remote_did: &String) -> (r: Option<usize>)
        ensures
            match r {
                Some(i) => i < self.pipe_views().len() && self.pipe_views()[i as int].0 == (room_key@, remote_did@),
                None => !has_key(self.pipe_views(), (room_key@, remote_did@)),
            },
    {
        let ghost pv = self.pipe_views();
        let mut i: usize = 0;
        while i < self.pipes.len()
            invariant
                i <= self.pipes@.len(),
                pv == pipes_view(self.pipes@),
                forall|j: int| 0 <= j < i ==> pv[j].0 != (room_key@, remote_did@),
            decreases self.pipes@.len() - i,
        {
            if self.pipes[i].room_key == *room_key && self.pipes[i].remote_did == *remote_did {
                return Some(i);
            }
            proof {
                assert(pv[i as int].0 == (self.pipes@[i as int].room_key@, self.pipes@[i as int].remote_did@));
            }
            i = i + 1;
        }
        None
    }

    /// Maps the key (`room_key`, `remote_did`) to `pipe`.
    fn insert_pipe(&mut self, room_key: String, remote_did: String, pipe: PipeTransport)
        requires
            old(self).wf(),
        ensures
            final(self).wf(),
            final(self).pipe_views() == map_insert(old(self).pipe_views(), (room_key@, remote_did@), pipe@),
            final(self).known() == old(self).known(),
            final(self).local() == old(self).local(),
            final(self).max_per_node() == old(self).max_per_node(),
            new_pipe_logs(*old(self), *final(self), (room_key@, remote_did@), pipe.rtc.log()),
    {
        let ghost pv = self.pipe_views();
        let ghost lg = self.pipe_logs();
        let ghost plog = pipe.rtc.log();
        let ghost key = (room_key@, remote_did@);
        let ghost val = pipe@;
        proof {
            lemma_map_insert(pv, key, val);
        }
        match self.find_pipe(&room_key, &remote_did) {
            Some(i) => {
                proof {
                    lemma_key_pos_unique(pv, key, i as int);
                }
                self.dropped = Ghost(self.dropped@.push(self.pipes@[i as int].pipe.rtc.log()));
                self.pipes.set(i, PipeEntry { room_key, remote_did, pipe });
                proof {
                    assert(self.pipe_logs() =~= lg.update(i as int, plog));
                }
            },
            None => {
                self.pipes.push(PipeEntry { room_key, remote_did, pipe });
                proof {
                    assert(self.pipe_logs() =~= lg.push(plog));
                }
            },
        }
        proof {
            assert(self.pipe_views() =~= map_insert(pv, key, val));
        }
    }

    /// Creates the SDP offer for a pipe transport to `remote_did` in
    /// `room_id`, on a connection `rtc` that the caller made for it (or the
    /// reason it could not). The pipe is recorded, not yet established,
    /// with its pending offer.
    pub fn establish_pipe(&mut self, remote_did: &str, room_id: &RoomId, rtc: Result<Connection, String>) -> (r: Result<
        CascadeSignal,
        String,
    >)
        requires
            old(self).wf(),
        ensures
            final(self).wf(),
            final(self).known() == old(self).known(),
            final(self).local() == old(self).local(),
            final(self).max_per_node() == old(self).max_per_node(),
            has_key(old(self).pipe_views(), (room_key(room_id@), remote_did@)) ==> (r matches Err(m) && m@
                == "Pipe transport already exists"@),
            !has_key(old(self).pipe_views(), (room_key(room_id@), remote_did@)) && rtc is Err ==> (r matches Err(m)
                && m@ == rtc->Err_0@),
            !has_key(old(self).pipe_views(), (room_key(room_id@), remote_did@)) && rtc is Ok ==> (r matches Err(m)
                ==> m@ == "Failed to create pipe offer: no changes to negotiate"@),
            r is Err ==> final(self).pipe_views() == old(self).pipe_views(),
            r is Err ==> final(self).pipe_logs() == old(self).pipe_logs() && final(self).dropped_logs() == old(
                self,
            ).dropped_logs(),
            r is Ok ==> final(self).pipe_logs() == old(self).pipe_logs().push(rtc->Ok_0.log()) && final(self).dropped_logs()
                == old(self).dropped_logs(),
            r matches Ok(sig) ==> {
                &&& sig matches CascadeSignal::PipeOffer { from_did, to_did, room_id: rk, .. } && from_did@
                    == old(self).local() && to_did@ == remote_did@ && rk@ == room_key(room_id@)
                &&& final(self).pipe_views() == map_insert(
                    old(self).pipe_views(),
                    (room_key(room_id@), remote_did@),
                    PipeView {
                        remote_did: remote_did@,
                        room: room_id@,
                        tracks_in: seq![],
                        tracks_out: seq![],
                        established: false,
                        has_pending_offer: true,
                    },
                )
            },
    {
        let room_key = room_id.to_string();
        let remote = remote_did.to_owned();
        if self.find_pipe(&room_key, &remote).is_some() {
            return Err(String::from_str("Pipe transport already exists"));
        }
        let mut rtc = match rtc {
            Ok(rtc) => rtc,
            Err(e) => {
                return Err(e);
            },
        };
        let api = rtc_sdp_api(&mut rtc);
        let (offer, pending) = match sdp_apply(api) {
            Some(applied) => applied,
            None => {
                return Err(String::from_str("Failed to create pipe offer: no changes to negotiate"));
            },
        };
        let sdp_offer = match sdp_offer_to_json(&offer) {
            Ok(json) => json,
            Err(e) => {
                let mut m = String::from_str("Failed to serialize offer: ");
                m.append(e.as_str());
                proof {
                    assert(m@.subrange(0, "Failed to serialize offer: "@.len() as int) =~= "Failed to serialize offer: "@);
                }
                return Err(m);
            },
        };
        let pipe = PipeTransport {
            remote_did: remote.clone(),
            rtc,
            room_id: room_id.copy(),
            tracks_in: Vec::new(),
            tracks_out: Vec::new(),
            established: false,
            pending_offer: Some(pending),
        };
        proof {
            assert(in_view(pipe.tracks_in@) =~= seq![]);
            assert(pipe.tracks_out@.map_values(|e: (String, String)| e.0@) =~= seq![]);
            assert(pipe@ == PipeView {
                remote_did: remote_did@,
                room: room_id@,
                tracks_in: seq![],
                tracks_out: seq![],
                established: false,
                has_pending_offer: true,
            });
        }
        self.insert_pipe(room_key.clone(), remote.clone(), pipe);
        Ok(CascadeSignal::PipeOffer { from_did: self.local_did.clone(), to_did: remote, room_id: room_key, sdp_offer })
    }

    /// Answers a pipe offer from the remote node `from_did` for the room
    /// `room_id` ("neighbourhood_url:room_name"), on a connection `rtc` that
    /// the caller made for it (or the reason it could not). The pipe is
    /// recorded as established.
    pub fn handle_pipe_offer(
        &mut self,
        from_did: &str,
        room_id: &str,
        sdp_offer_json: &str,
        rtc: Result<Connection, String>,
    ) -> (r: Result<CascadeSignal, String>)
        requires
            old(self).wf(),
        ensures
            final(self).wf(),
            final(self).known() == old(self).known(),
            final(self).local() == old(self).local(),
            final(self).max_per_node() == old(self).max_per_node(),
            r is Err ==> final(self).pipe_views() == old(self).pipe_views(),
            sdp_offer_json_error(sdp_offer_json@) matches Some(e) ==> (r matches Err(m) && m@ == "Invalid pipe SDP offer: "@
                + e),
            sdp_offer_json_error(sdp_offer_json@) is None && rtc is Err ==> (r matches Err(m) && m@ == rtc->Err_0@),
            sdp_offer_json_error(sdp_offer_json@) is None && rtc is Ok ==> (r matches Err(m) ==>
            "Failed to accept pipe offer: "@.is_prefix_of(m@)),
            r is Err ==> final(self).pipe_logs() == old(self).pipe_logs() && final(self).dropped_logs() == old(
                self,
            ).dropped_logs(),
            r is Ok ==> new_pipe_logs(*old(self), *final(self), (room_id@, from_did@), rtc->Ok_0.log()),
            r matches Ok(sig) ==> {
                &&& rtc is Ok
                &&& sig matches CascadeSignal::PipeAnswer { from_did: f, to_did, room_id: rk, .. } && f@ == old(
                    self,
                ).local() && to_did@ == from_did@ && rk@ == room_id@
                &&& final(self).pipe_views() == map_insert(
                    old(self).pipe_views(),
                    (room_id@, from_did@),
                    PipeView {
                        remote_did: from_did@,
                        room: parse_room_key(room_id@),
                        tracks_in: seq![],
                        tracks_out: seq![],
                        established: true,
                        has_pending_offer: false,
                    },
                )
            },
    {
        let offer = match sdp_offer_from_json(sdp_offer_json) {
            Ok(offer) => offer,
            Err(e) => {
                let mut m = String::from_str("Invalid pipe SDP offer: ");
                m.append(e.as_str());
                proof {
                    assert(m@.subrange(0, "Invalid pipe SDP offer: "@.len() as int) =~= "Invalid pipe SDP offer: "@);
                }
                return Err(m);
            },
        };
        let mut rtc = match rtc {
            Ok(rtc) => rtc,
            Err(e) => {
                return Err(e);
            },
        };
        let api = rtc_sdp_api(&mut rtc);
        let answer = match sdp_accept_offer(api, offer) {
            Ok(answer) => answer,
            Err(e) => {
                let mut m = String::from_str("Failed to accept pipe offer: ");
                m.append(e.as_str());
                proof {
                    assert(m@.subrange(0, "Failed to accept pipe offer: "@.len() as int)
                        =~= "Failed to accept pipe offer: "@);
                }
                return Err(m);
            },
        };
        let sdp_answer = match sdp_answer_to_json(&answer) {
            Ok(json) => json,
            Err(e) => {
                let mut m = String::from_str("Failed to serialize pipe answer: ");
                m.append(e.as_str());
                proof {
                    assert(m@.subrange(0, "Failed to serialize pipe answer: "@.len() as int)
                        =~= "Failed to serialize pipe answer: "@);
                }
                return Err(m);
            },
        };
        let pipe = PipeTransport {
            remote_did: from_did.to_owned(),
            rtc,
            room_id: RoomId::parse(room_id),
            tracks_in: Vec::new(),
            tracks_out: Vec::new(),
            established: true,
            pending_offer: None,
        };
        proof {
            assert(in_view(pipe.tracks_in@) =~= seq![]);
            assert(pipe.tracks_out@.map_values(|e: (String, String)| e.0@) =~= seq![]);
        }
        self.insert_pipe(room_id.to_owned(), from_did.to_owned(), pipe);
        Ok(
            CascadeSignal::PipeAnswer {
                from_did: self.local_did.clone(),
                to_did: from_did.to_owned(),
                room_id: room_id.to_owned(),
                sdp_answer,
            },
        )
    }

    /// Settles our pipe offer to `from_did` for `room_id` with its answer;
    /// the pipe is then established.
    pub fn handle_pipe_answer(&mut self, from_did: &str, room_id: &str, sdp_answer_json: &str) -> (r: Result<
        (),
        String,
    >)
        requires
            old(self).wf(),
        ensures
            final(self).wf(),
            final(self).known() == old(self).known(),
            final(self).local() == old(self).local(),
            final(self).max_per_node() == old(self).max_per_node(),
            final(self).pipe_views().len() == old(self).pipe_views().len(),
            !has_key(old(self).pipe_views(), (room_id@, from_did@)) ==> (r matches Err(m) && m@
                == "No pending pipe transport for this node"@ && final(self).pipe_views() == old(self).pipe_views()),
            has_key(old(self).pipe_views(), (room_id@, from_did@)) ==> (sdp_answer_json_error(sdp_answer_json@) matches Some(
                e,
            ) ==> (r matches Err(m) && m@ == "Invalid pipe SDP answer: "@ + e)),
            has_key(old(self).pipe_views(), (room_id@, from_did@)) && sdp_answer_json_error(sdp_answer_json@) is None ==> (
            r matches Err(m) ==> "Failed to accept pipe answer: "@.is_prefix_of(m@)),
            forall|j: int|
                0 <= j < old(self).pipe_views().len() && old(self).pipe_views()[j].0 != (room_id@, from_did@)
                    ==> #[trigger] final(self).pipe_views()[j] == old(self).pipe_views()[j],
            forall|j: int|
                0 <= j < old(self).pipe_views().len() && old(self).pipe_views()[j].0 == (room_id@, from_did@) ==> {
                    let p = old(self).pipe_views()[j].1;
                    let q = #[trigger] final(self).pipe_views()[j].1;
                    &&& final(self).pipe_views()[j].0 == old(self).pipe_views()[j].0
                    &&& q.remote_did == p.remote_did && q.room == p.room && q.tracks_in == p.tracks_in
                        && q.tracks_out == p.tracks_out
                    &&& r is Ok ==> q.established
                    &&& r is Err ==> q.established == p.established
                    &&& r is Ok ==> p.has_pending_offer
                    &&& sdp_answer_json_error(sdp_answer_json@) is None ==> !q.has_pending_offer
                    &&& sdp_answer_json_error(sdp_answer_json@) is Some ==> q.has_pending_offer == p.has_pending_offer
                    &&& sdp_answer_json_error(sdp_answer_json@) is None && !p.has_pending_offer ==> (r matches Err(m) && m@
                        == "Failed to accept pipe answer: no pending offer"@)
                },
    {
        let key_room = room_id.to_owned();
        let key_did = from_did.to_owned();
        let i = match self.find_pipe(&key_room, &key_did) {
            Some(i) => i,
            None => {
                return Err(String::from_str("No pending pipe transport for this node"));
            },
        };
        let ghost pv = self.pipe_views();
        proof {
            lemma_key_pos_unique(pv, (room_id@, from_did@), i as int);
        }
        let answer = match sdp_answer_from_json(sdp_answer_json) {
            Ok(answer) => answer,
            Err(e) => {
                let mut m = String::from_str("Invalid pipe SDP answer: ");
                m.append(e.as_str());
                proof {
                    assert(m@.subrange(0, "Invalid pipe SDP answer: "@.len() as int) =~= "Invalid pipe SDP answer: "@);
                }
                return Err(m);
            },
        };
        let pending = match self.pipes[i].pipe.pending_offer.take() {
            Some(p) => p,
            None => {
                proof {
                    assert forall|j: int| 0 <= j < pv.len() && j != i implies self.pipe_views()[j] == pv[j] by {}
                    self.lemma_pipe_keys_kept(pv, i as int);
                }
                let m = String::from_str("Failed to accept pipe answer: no pending offer");
                proof {
                    reveal_strlit("Failed to accept pipe answer: no pending offer");
                    reveal_strlit("Failed to accept pipe answer: ");
                    assert(m@.subrange(0, "Failed to accept pipe answer: "@.len() as int) =~= "Failed to accept pipe answer: "@);
                }
                return Err(m);
            },
        };
        let api = rtc_sdp_api(&mut self.pipes[i].pipe.rtc);
        let accepted = sdp_accept_answer(api, pending, answer);
        let r = match accepted {
            Ok(()) => {
                self.pipes[i].pipe.established = true;
                Ok(())
            },
            Err(e) => {
                let mut m = String::from_str("Failed to accept pipe answer: ");
                m.append(e.as_str());
                proof {
                    assert(m@.subrange(0, "Failed to accept pipe answer: "@.len() as int) =~= "Failed to accept pipe answer: "@);
                }
                Err(m)
            },
        };
        proof {
            assert forall|j: int| 0 <= j < pv.len() && j != i implies self.pipe_views()[j] == pv[j] by {}
            self.lemma_pipe_keys_kept(pv, i as int);
        }
        r
    }

    /// The pipes, by position, that media of `room_id` goes to (see
    /// `forward_candidates`).
    pub fn forward_pipe_targets(&self, room_id: &str, exclude_node: Option<&str>) -> (r: Vec<usize>)
        ensures
            r@.map_values(|i: usize| i as int) == forward_candidates(self.pipe_views(), room_id@, opt_did(exclude_node)),
    {
        let ghost pv = self.pipe_views();
        let ghost ex = opt_did(exclude_node);
        let room = room_id.to_owned();
        let exclude: Option<String> = match exclude_node {
            Some(d) => Some(d.to_owned()),
            None => None,
        };
        let mut r: Vec<usize> = Vec::new();
        let mut i: usize = 0;
        while i < self.pipes.len()
            invariant
                i <= self.pipes@.len(),
                pv == pipes_view(self.pipes@),
                room@ == room_id@,
                ex == opt_did(exclude_node),
                match exclude {
                    Some(x) => ex == Some(x@),
                    None => ex is None,
                },
                r@.map_values(|k: usize| k as int) == forward_candidates(pv.take(i as int), room_id@, ex),
            decreases self.pipes@.len() - i,
        {
            let e = &self.pipes[i];
            let excluded = match &exclude {
                Some(x) => e.remote_did == *x,
                None => false,
            };
            let ghost prev = r@;
            if e.room_key == room && !excluded && e.pipe.established {
                r.push(i);
            }
            proof {
                let t = pv.take(i + 1);
                assert(t.drop_last() =~= pv.take(i as int));
                assert(t.last() == pv[i as int]);
                assert(pv[i as int] == ((e.room_key@, e.remote_did@), e.pipe@));
                if r@.len() > prev.len() {
                    assert(r@ == prev.push(i));
                    assert(r@.map_values(|k: usize| k as int) =~= prev.map_values(|k: usize| k as int).push(i as int));
                }
            }
            i = i + 1;
        }
        proof {
            assert(pv.take(i as int) =~= pv);
        }
        r
    }

    /// Forwards a media frame of `room_id` to the remote nodes: to each pipe
    /// of `forward_pipe_targets`, on the first of its outgoing tracks that
    /// str0m gives a writer for (it gives none on a connection that is not
    /// alive). Every such pipe is tried, track by track. Returns the writes
    /// made: each pipe, by position, with the media id written on.
    pub fn forward_to_pipes(&mut self, room_id: &str, data: &MediaData, exclude_node: Option<&str>) -> (writes: Vec<
        (usize, String),
    >)
        requires
            old(self).wf(),
        ensures
            final(self).wf(),
            final(self).pipe_views() == old(self).pipe_views(),
            final(self).known() == old(self).known(),
            final(self).local() == old(self).local(),
            final(self).max_per_node() == old(self).max_per_node(),
            forall|a: int|
                0 <= a < writes@.len() ==> forward_candidates(old(self).pipe_views(), room_id@, opt_did(exclude_node)).contains(
                    (#[trigger] writes@[a]).0 as int,
                ),
            forall|a: int, b: int| 0 <= a < b < writes@.len() ==> (#[trigger] writes@[a]).0 < (#[trigger] writes@[b]).0,
            forall|a: int|
                0 <= a < writes@.len() ==> old(self).pipe_views()[(#[trigger] writes@[a]).0 as int].1.tracks_out.contains(
                    writes@[a].1@,
                ),
            final(self).pipe_logs().len() == old(self).pipe_logs().len(),
            forall|a: int|
                0 <= a < writes@.len() ==> final(self).pipe_logs()[(#[trigger] writes@[a]).0 as int] == old(
                    self,
                ).pipe_logs()[writes@[a].0 as int].push(ConnectionEvent::Write(writes@[a].1@)),
            forall|j: int|
                0 <= j < old(self).pipe_logs().len() && (forall|a: int| 0 <= a < writes@.len() ==> (#[trigger] writes@[a]).0 != j)
                    ==> #[trigger] final(self).pipe_logs()[j] == old(self).pipe_logs()[j],
            forall|a: int|
                0 <= a < writes@.len() ==> !old(self).pipe_logs()[(#[trigger] writes@[a]).0 as int].contains(
                    ConnectionEvent::Disconnect,
                ),
            final(self).pipe_tries().len() == old(self).pipe_tries().len(),
            forall|a: int|
                0 <= a < writes@.len() ==> tried_for_frame(
                    old(self).pipe_views()[(#[trigger] writes@[a]).0 as int].1.tracks_out,
                    old(self).pipe_tries()[writes@[a].0 as int],
                    final(self).pipe_tries()[writes@[a].0 as int],
                    Some(writes@[a].1@),
                ),
            ({
                let cands = forward_candidates(old(self).pipe_views(), room_id@, opt_did(exclude_node));
                &&& forall|x: int|
                    0 <= x < cands.len() && (forall|a: int| 0 <= a < writes@.len() ==> (#[trigger] writes@[a]).0 != cands[x])
                        ==> tried_for_frame(
                        old(self).pipe_views()[cands[x]].1.tracks_out,
                        old(self).pipe_tries()[cands[x]],
                        #[trigger] final(self).pipe_tries()[cands[x]],
                        None,
                    )
                &&& forall|j: int|
                    0 <= j < old(self).pipe_tries().len() && !cands.contains(j) ==> #[trigger] final(self).pipe_tries()[j]
                        == old(self).pipe_tries()[j]
            }),
    {
        let targets = self.forward_pipe_targets(room_id, exclude_node);
        let ghost pv = self.pipe_views();
        let ghost kv = self.known();
        let ghost cands = forward_candidates(pv, room_id@, opt_did(exclude_node));
        proof {
            lemma_forward_candidates_in_range(pv, room_id@, opt_did(exclude_node));
            lemma_forward_candidates(pv, room_id@, opt_did(exclude_node));
        }
        let ghost lg0 = self.pipe_logs();
        let ghost lt0 = self.pipe_tries();
        let mut writes: Vec<(usize, String)> = Vec::new();
        let mut k: usize = 0;
        while k < targets.len()
            invariant
                lt0 == old(self).pipe_tries(),
                lt0.len() == pv.len(),
                self.pipe_tries().len() == pv.len(),
                forall|x: int|
                    0 <= x < k && (forall|a: int| 0 <= a < writes@.len() ==> (#[trigger] writes@[a]).0 != cands[x])
                        ==> tried_for_frame(pv[cands[x]].1.tracks_out, lt0[cands[x]], #[trigger] self.pipe_tries()[cands[x]], None),
                forall|a: int|
                    0 <= a < writes@.len() ==> tried_for_frame(
                        pv[(#[trigger] writes@[a]).0 as int].1.tracks_out,
                        lt0[writes@[a].0 as int],
                        self.pipe_tries()[writes@[a].0 as int],
                        Some(writes@[a].1@),
                    ),
                forall|j: int|
                    0 <= j < pv.len() && (forall|x: int| 0 <= x < k ==> cands[x] != j) ==> #[trigger] self.pipe_tries()[j]
                        == lt0[j],
                lg0 == old(self).pipe_logs(),
                lg0.len() == pv.len(),
                self.pipe_logs().len() == pv.len(),
                forall|a: int|
                    0 <= a < writes@.len() ==> self.pipe_logs()[(#[trigger] writes@[a]).0 as int] == lg0[writes@[a].0 as int].push(
                        ConnectionEvent::Write(writes@[a].1@),
                    ),
                forall|j: int|
                    0 <= j < pv.len() && (forall|a: int| 0 <= a < writes@.len() ==> (#[trigger] writes@[a]).0 != j)
                        ==> #[trigger] self.pipe_logs()[j] == lg0[j],
                k <= targets@.len(),
                targets@.map_values(|i: usize| i as int) == cands,
                forall|j: int| 0 <= j < cands.len() ==> 0 <= #[trigger] cands[j] < pv.len(),
                forall|x: int, y: int| 0 <= x < y < cands.len() ==> #[trigger] cands[x] < #[trigger] cands[y],
                pv == self.pipe_views(),
                kv == self.known(),
                self.local() == old(self).local(),
                self.max_per_node() == old(self).max_per_node(),
                self.wf(),
                forall|a: int| 0 <= a < writes@.len() ==> exists|x: int| 0 <= x < k && cands[x] == (#[trigger] writes@[a]).0 as int,
                forall|a: int, b: int| 0 <= a < b < writes@.len() ==> (#[trigger] writes@[a]).0 < (#[trigger] writes@[b]).0,
                forall|a: int|
                    0 <= a < writes@.len() ==> pv[(#[trigger] writes@[a]).0 as int].1.tracks_out.contains(writes@[a].1@),
                forall|a: int| 0 <= a < writes@.len() ==> !lg0[(#[trigger] writes@[a]).0 as int].contains(ConnectionEvent::Disconnect),
            decreases targets@.len() - k,
        {
            let i = targets[k];
            proof {
                assert(cands[k as int] == i as int);
            }
            let ghost lgk = self.pipe_logs();
            let ghost ltk = self.pipe_tries();
            let ghost prevw = writes@;
            proof {
                assert forall|a: int| 0 <= a < prevw.len() implies (#[trigger] prevw[a]).0 < i by {
                    let x = choose|x: int| 0 <= x < k && cands[x] == prevw[a].0 as int;
                    assert(cands[x] < cands[k as int]);
                }
                assert(lgk[i as int] == lg0[i as int]);
                assert forall|x: int| 0 <= x < k implies cands[x] != i by {
                    assert(cands[x] < cands[k as int]);
                }
                assert(ltk[i as int] == lt0[i as int]);
            }
            let w = self.write_to_pipe(i, data);
            proof {
                assert forall|j: int| 0 <= j < pv.len() && j != i implies #[trigger] self.pipe_tries()[j] == ltk[j] by {}
                assert forall|x: int|
                    0 <= x < k && (forall|a: int| 0 <= a < prevw.len() ==> (#[trigger] prevw[a]).0 != cands[x])
                        implies tried_for_frame(pv[cands[x]].1.tracks_out, lt0[cands[x]], #[trigger] self.pipe_tries()[cands[x]], None) by {
                    assert(cands[x] < cands[k as int]);
                    assert forall|a: int| 0 <= a < writes@.len() implies (#[trigger] writes@[a]).0 != cands[x] by {
                        assert(writes@[a] == prevw[a]);
                    }
                }
                assert forall|a: int| 0 <= a < prevw.len() implies tried_for_frame(
                    pv[(#[trigger] prevw[a]).0 as int].1.tracks_out,
                    lt0[prevw[a].0 as int],
                    self.pipe_tries()[prevw[a].0 as int],
                    Some(prevw[a].1@),
                ) by {
                    assert(prevw[a] == writes@[a]);
                    assert(prevw[a].0 < i);
                }
            }
            match w {
                Some(m) => {
                    let ghost prev = writes@;
                    writes.push((i, m));
                    proof {
                        assert(writes@ == prev.push((i, m)));
                        assert(self.pipe_logs() == lgk.update(i as int, lgk[i as int].push(ConnectionEvent::Write(m@))));
                        assert forall|a: int| 0 <= a < writes@.len() implies self.pipe_logs()[(#[trigger] writes@[a]).0 as int]
                            == lg0[writes@[a].0 as int].push(ConnectionEvent::Write(writes@[a].1@)) by {
                            if a < prev.len() {
                                assert(writes@[a] == prev[a]);
                                assert(prev[a].0 < i);
                            }
                        }
                        assert forall|j: int|
                            0 <= j < pv.len() && (forall|a: int| 0 <= a < writes@.len() ==> (#[trigger] writes@[a]).0 != j)
                            implies #[trigger] self.pipe_logs()[j] == lg0[j] by {
                            assert(writes@[prev.len() as int].0 != j);
                            assert forall|a: int| 0 <= a < prev.len() implies (#[trigger] prev[a]).0 != j by {
                                assert(writes@[a] == prev[a]);
                            }
                        }
                        assert forall|a: int| 0 <= a < writes@.len() implies exists|x: int|
                            0 <= x < k + 1 && cands[x] == (#[trigger] writes@[a]).0 as int by {
                            if a < prev.len() {
                                assert(writes@[a] == prev[a]);
                                let x = choose|x: int| 0 <= x < k && cands[x] == prev[a].0 as int;
                                assert(cands[x] == writes@[a].0 as int);
                            } else {
                                assert(cands[k as int] == writes@[a].0 as int);
                            }
                        }
                        assert forall|a: int, b: int| 0 <= a < b < writes@.len() implies (#[trigger] writes@[a]).0
                            < (#[trigger] writes@[b]).0 by {
                            if b < prev.len() {
                                assert(writes@[a] == prev[a] && writes@[b] == prev[b]);
                            } else {
                                assert(writes@[a] == prev[a]);
                            }
                        }
                        assert forall|a: int| 0 <= a < writes@.len() implies tried_for_frame(
                            pv[(#[trigger] writes@[a]).0 as int].1.tracks_out,
                            lt0[writes@[a].0 as int],
                            self.pipe_tries()[writes@[a].0 as int],
                            Some(writes@[a].1@),
                        ) by {
                            if a < prev.len() {
                                assert(writes@[a] == prevw[a]);
                            }
                        }
                        assert forall|x: int|
                            0 <= x < k + 1 && (forall|a: int| 0 <= a < writes@.len() ==> (#[trigger] writes@[a]).0 != cands[x])
                            implies tried_for_frame(pv[cands[x]].1.tracks_out, lt0[cands[x]], #[trigger] self.pipe_tries()[cands[x]], None) by {
                            if x == k {
                                assert(writes@[prev.len() as int].0 == cands[x]);
                            } else {
                                assert forall|a: int| 0 <= a < prevw.len() implies (#[trigger] prevw[a]).0 != cands[x] by {
                                    assert(writes@[a] == prevw[a]);
                                }
                            }
                        }
                        assert forall|j: int|
                            0 <= j < pv.len() && (forall|x: int| 0 <= x < k + 1 ==> cands[x] != j) implies #[trigger] self.pipe_tries()[j]
                                == lt0[j] by {
                            assert(cands[k as int] != j);
                        }
                    }
                },
                None => {
                    proof {
                        assert(self.pipe_logs() =~= lgk);
                        assert forall|x: int|
                            0 <= x < k + 1 && (forall|a: int| 0 <= a < writes@.len() ==> (#[trigger] writes@[a]).0 != cands[x])
                            implies tried_for_frame(pv[cands[x]].1.tracks_out, lt0[cands[x]], #[trigger] self.pipe_tries()[cands[x]], None) by {
                            if x < k {
                                assert forall|a: int| 0 <= a < prevw.len() implies (#[trigger] prevw[a]).0 != cands[x] by {
                                    assert(writes@[a] == prevw[a]);
                                }
                            }
                        }
                        assert forall|a: int| 0 <= a < writes@.len() implies tried_for_frame(
                            pv[(#[trigger] writes@[a]).0 as int].1.tracks_out,
                            lt0[writes@[a].0 as int],
                            self.pipe_tries()[writes@[a].0 as int],
                            Some(writes@[a].1@),
                        ) by {
                            assert(writes@[a] == prevw[a]);
                        }
                        assert forall|j: int|
                            0 <= j < pv.len() && (forall|x: int| 0 <= x < k + 1 ==> cands[x] != j) implies #[trigger] self.pipe_tries()[j]
                                == lt0[j] by {
                            assert(cands[k as int] != j);
                        }
                    }
                },
            }
            proof {
                assert forall|a: int| 0 <= a < writes@.len() implies exists|x: int|
                    0 <= x < k + 1 && cands[x] == (#[trigger] writes@[a]).0 as int by {
                    let x = choose|x: int| 0 <= x < k + 1 && cands[x] == writes@[a].0 as int;
                }
            }
            k = k + 1;
        }
        proof {
            assert forall|a: int| 0 <= a < writes@.len() implies cands.contains((#[trigger] writes@[a]).0 as int) by {
                let x = choose|x: int| 0 <= x < k && cands[x] == writes@[a].0 as int;
            }
            assert(k == cands.len()) by {
                assert(targets@.map_values(|i: usize| i as int).len() == targets@.len());
            }
            assert forall|j: int| 0 <= j < lt0.len() && !cands.contains(j) implies #[trigger] self.pipe_tries()[j] == lt0[j] by {
                assert forall|x: int| 0 <= x < k implies cands[x] != j by {
                    if cands[x] == j {
                        assert(cands.contains(j));
                    }
                }
            }
        }
        writes
    }


    /// Writes `data` on the first outgoing track of the `i`-th pipe that
    /// str0m gives a writer for, and returns that track's media id; none
    /// where str0m gives a writer for no outgoing track.
    fn write_to_pipe(&mut self, i: usize, data: &MediaData) -> (w: Option<String>)
        requires
            i < old(self).pipes@.len(),
        ensures
            final(self).pipe_views() == old(self).pipe_views(),
            final(self).known() == old(self).known(),
            final(self).local() == old(self).local(),
            final(self).max_per_node() == old(self).max_per_node(),
            w matches Some(m) ==> old(self).pipe_views()[i as int].1.tracks_out.contains(m@),
            final(self).pipe_logs() == match w {
                Some(m) => old(self).pipe_logs().update(i as int, old(self).pipe_logs()[i as int].push(ConnectionEvent::Write(m@))),
                None => old(self).pipe_logs(),
            },
            w is Some ==> !old(self).pipe_logs()[i as int].contains(ConnectionEvent::Disconnect),
            final(self).pipe_tries() == old(self).pipe_tries().update(i as int, final(self).pipe_tries()[i as int]),
            tried_for_frame(
                old(self).pipe_views()[i as int].1.tracks_out,
                old(self).pipe_tries()[i as int],
                final(self).pipe_tries()[i as int],
                crate::peer::opt_view(w),
            ),
    {
        let ghost pv = self.pipe_views();
        let ghost lt = self.pipe_tries();
        let ghost tv = pv[i as int].1.tracks_out;
        let mut t: usize = 0;
        let mut written: Option<String> = None;
        while written.is_none() && t < self.pipes[i].pipe.tracks_out.len()
            invariant
                i < self.pipes@.len(),
                pv == self.pipe_views(),
                self.known() == old(self).known(),
                self.local() == old(self).local(),
                self.max_per_node() == old(self).max_per_node(),
                written matches Some(m) ==> pv[i as int].1.tracks_out.contains(m@),
                self.pipe_logs() == match written {
                    Some(m) => old(self).pipe_logs().update(i as int, old(self).pipe_logs()[i as int].push(ConnectionEvent::Write(m@))),
                    None => old(self).pipe_logs(),
                },
                written is Some ==> !old(self).pipe_logs()[i as int].contains(ConnectionEvent::Disconnect),
                lt == old(self).pipe_tries(),
                tv == pv[i as int].1.tracks_out,
                tv.len() == self.pipes@[i as int].pipe.tracks_out@.len(),
                t <= tv.len(),
                self.pipe_tries() == lt.update(i as int, lt[i as int] + tv.take(t as int)),
                written matches Some(m) ==> t > 0 && tv[t - 1] == m@,
            decreases self.pipes@[i as int].pipe.tracks_out@.len() - t,
        {
            let mid = self.pipes[i].pipe.tracks_out[t].0.clone();
            let ghost pre = self.pipes@;
            proof {
                assert(pv[i as int].1.tracks_out[t as int] == mid@);
            }
            let ghost lg = self.pipe_logs();
            let ghost ltr = self.pipe_tries();
            proof {
                assert(lg[i as int] == self.pipes@[i as int].pipe.rtc.log());
                assert(lg[i as int] == old(self).pipe_logs()[i as int]);
            }
            match rtc_write(&mut self.pipes[i].pipe.rtc, &mid, data) {
                Some(_) => {
                    proof {
                        assert(self.pipe_logs() =~= lg.update(i as int, lg[i as int].push(ConnectionEvent::Write(mid@))));
                    }
                    written = Some(mid);
                },
                None => {
                    proof {
                        assert(self.pipe_logs() =~= lg);
                    }
                },
            }
            proof {
                assert(self.pipe_tries() =~= ltr.update(i as int, ltr[i as int].push(mid@)));
                assert(tv.take(t + 1) =~= tv.take(t as int).push(mid@));
                assert(lt[i as int] + tv.take(t + 1) =~= (lt[i as int] + tv.take(t as int)).push(mid@));
                assert(self.pipe_tries() =~= lt.update(i as int, lt[i as int] + tv.take(t + 1)));
            }
            proof {
                let a = self.pipes@[i as int];
                let b = pre[i as int];
                assert(a.pipe@ == b.pipe@);
                assert forall|x: int| 0 <= x < pre.len() implies #[trigger] pipes_view(self.pipes@)[x] == pipes_view(pre)[x] by {
                    if x != i {
                        assert(self.pipes@[x] == pre[x]);
                    }
                }
                assert(pipes_view(self.pipes@) =~= pipes_view(pre));
            }
            t = t + 1;
        }
        proof {
            assert(self.pipe_tries()[i as int] == lt[i as int] + tv.take(t as int));
            assert(self.pipe_tries() =~= lt.update(i as int, self.pipe_tries()[i as int]));
            if written is Some {
                let m = written->0;
                assert(tv[t - 1] == m@);
                assert(tried_for_frame(tv, lt[i as int], self.pipe_tries()[i as int], Some(m@)));
            } else {
                assert(tv.take(t as int) =~= tv);
            }
        }
        written
    }

    /// Removes the node `did` from the cluster: from the known nodes of
    /// every room, and its pipes, which are disconnected.
    pub fn remove_node(&mut self, did: &str)
        requires
            old(self).wf(),
        ensures
            final(self).wf(),
            final(self).known() == without_node(old(self).known(), did@),
            final(self).pipe_views() == pipes_without(old(self).pipe_views(), did@),
            final(self).local() == old(self).local(),
            final(self).max_per_node() == old(self).max_per_node(),
            final(self).pipe_logs() == logs_not_to(old(self).pipe_views(), old(self).pipe_logs(), did@),
            final(self).dropped_logs() == old(self).dropped_logs() + closed_logs_to(
                old(self).pipe_views(),
                old(self).pipe_logs(),
                did@,
            ),
    {
        let target = did.to_owned();
        let ghost lg = self.pipe_logs();
        let ghost kv = self.known();
        let ghost pv = self.pipe_views();
        let mut r: usize = 0;
        while r < self.known_nodes.len()
            invariant
                r <= self.known_nodes@.len(),
                self.known_nodes@.len() == kv.len(),
                target@ == did@,
                pv == self.pipe_views(),
                lg == self.pipe_logs(),
                self.dropped_logs() == old(self).dropped_logs(),
                self.local() == old(self).local(),
                self.max_per_node() == old(self).max_per_node(),
                keys_distinct(kv),
                forall|j: int| 0 <= j < kv.len() ==> keys_distinct(#[trigger] kv[j].1),
                forall|j: int| 0 <= j < r ==> #[trigger] self.known()[j] == without_node(kv, did@)[j],
                forall|j: int| r <= j < kv.len() ==> #[trigger] self.known()[j] == kv[j],
            decreases self.known_nodes@.len() - r,
        {
            let ghost pre = self.known_nodes@;
            let ghost kpre = self.known();
            proof {
                assert(kpre[r as int] == kv[r as int]);
                assert(kpre[r as int] == (pre[r as int].room@, nodes_view(pre[r as int].nodes@)));
                assert(keys_distinct(kv[r as int].1));
            }
            Self::remove_did(&mut self.known_nodes[r].nodes, &target);
            proof {
                assert forall|j: int| 0 <= j < kv.len() && j != r implies #[trigger] self.known()[j] == kpre[j] by {
                    assert(self.known_nodes@[j] == pre[j]);
                }
                assert(self.known()[r as int] == (pre[r as int].room@, nodes_view(self.known_nodes@[r as int].nodes@)));
                assert(self.known()[r as int] == without_node(kv, did@)[r as int]);
            }
            r = r + 1;
        }
        proof {
            assert(self.known() =~= without_node(kv, did@));
        }
        let ghost mut done: int = 0;
        let mut i: usize = 0;
        while i < self.pipes.len()
            invariant
                0 <= done <= pv.len(),
                i <= self.pipes@.len(),
                i == pipes_without(pv.take(done), did@).len(),
                self.pipe_views() == pipes_without(pv.take(done), did@) + pv.skip(done),
                lg.len() == pv.len(),
                self.pipe_logs() == logs_not_to(pv.take(done), lg.take(done), did@) + lg.skip(done),
                self.dropped_logs() == old(self).dropped_logs() + closed_logs_to(pv.take(done), lg.take(done), did@),
                target@ == did@,
                self.known() == without_node(kv, did@),
                self.local() == old(self).local(),
                self.max_per_node() == old(self).max_per_node(),
            decreases self.pipes@.len() - i,
        {
            let ghost pre = self.pipe_views();
            let ghost prep = self.pipes@;
            let ghost lpre = self.pipe_logs();
            proof {
                assert(pre[i as int] == pv[done]);
                let t = pv.take(done + 1);
                assert(t.drop_last() =~= pv.take(done));
                assert(t.last() == pv[done]);
                assert(pre[i as int].0.1 == prep[i as int].remote_did@);
                let tl = lg.take(done + 1);
                assert(tl.drop_last() =~= lg.take(done));
                assert(tl.last() == lg[done]);
                lemma_logs_not_to_len(pv.take(done), lg.take(done), did@);
                assert(lpre[i as int] == lg[done]);
            }
            if self.pipes[i].remote_did == target {
                let mut e = self.pipes.remove(i);
                rtc_disconnect(&mut e.pipe.rtc);
                self.dropped = Ghost(self.dropped@.push(e.pipe.rtc.log()));
                proof {
                    assert(self.pipe_logs() =~= lpre.remove(i as int));
                    assert(self.pipe_logs() =~= logs_not_to(pv.take(done + 1), lg.take(done + 1), did@) + lg.skip(done + 1));
                    assert(self.dropped_logs() =~= old(self).dropped_logs() + closed_logs_to(
                        pv.take(done + 1),
                        lg.take(done + 1),
                        did@,
                    ));
                    assert(self.pipes@ == prep.remove(i as int));
                    assert(self.pipe_views() =~= pre.remove(i as int));
                    assert(pipes_without(pv.take(done + 1), did@) == pipes_without(pv.take(done), did@));
                    assert(self.pipe_views() =~= pipes_without(pv.take(done + 1), did@) + pv.skip(done + 1));
                    done = done + 1;
                }
            } else {
                proof {
                    assert(self.pipe_views() =~= pipes_without(pv.take(done + 1), did@) + pv.skip(done + 1));
                    assert(self.pipe_logs() =~= logs_not_to(pv.take(done + 1), lg.take(done + 1), did@) + lg.skip(done + 1));
                    assert(self.dropped_logs() =~= old(self).dropped_logs() + closed_logs_to(
                        pv.take(done + 1),
                        lg.take(done + 1),
                        did@,
                    ));
                    done = done + 1;
                }
                i = i + 1;
            }
        }
        proof {
            assert(done == pv.len());
            assert(pv.take(done) =~= pv);
            assert(lg.take(done) =~= lg);
            assert(lg.skip(done) =~= Seq::<Seq<ConnectionEvent>>::empty());
            assert(self.pipe_logs() =~= logs_not_to(pv, lg, did@));
            assert(pv.skip(done) =~= Seq::<((Seq<char>, Seq<char>), PipeView)>::empty());
            assert(self.pipe_views() =~= pipes_without(pv, did@));
            lemma_pipes_without(pv, did@);
            lemma_without_node(kv, did@);
        }
    }

    /// Removes the record of `did` from `nodes`.
    fn remove_did(nodes: &mut Vec<SfuNodeInfo>, did: &String)
        requires
            keys_distinct(nodes_view(old(nodes)@)),
        ensures
            nodes_view(final(nodes)@) == crate::assoc::map_remove(nodes_view(old(nodes)@), did@),
    {
        let ghost nv = nodes_view(nodes@);
        let mut kept: Vec<SfuNodeInfo> = Vec::new();
        let mut i: usize = 0;
        while i < nodes.len()
            invariant
                i <= nodes@.len(),
                nv == nodes_view(nodes@),
                nodes_view(kept@) == crate::assoc::map_remove(nv.take(i as int), did@),
            decreases nodes@.len() - i,
        {
            let ghost prev = kept@;
            proof {
                let t = nv.take(i + 1);
                assert(t.drop_last() =~= nv.take(i as int));
                assert(t.last() == nv[i as int]);
                assert(nv[i as int] == node_load(nodes@[i as int]));
            }
            if nodes[i].did != *did {
                let c = nodes[i].copy();
                kept.push(c);
                proof {
                    assert(kept@ == prev.push(c));
                    assert(nodes_view(kept@) =~= nodes_view(prev).push(node_load(c)));
                }
            }
            i = i + 1;
        }
        proof {
            assert(nv.take(i as int) =~= nv);
        }
        *nodes = kept;
    }

    /// The number of pipes.
    pub fn pipe_count(&self) -> (n: usize)
        ensures
            n == self.pipe_views().len(),
    {
        self.pipes.len()
    }

    /// The key of the `i`-th pipe: the room's text form and the remote DID.
    pub fn pipe_key(&self, i: usize) -> (r: (&String, &String))
        requires
            i < self.pipe_views().len(),
        ensures
            (r.0@, r.1@) == self.pipe_views()[i as int].0,
    {
        (&self.pipes[i].room_key, &self.pipes[i].remote_did)
    }

    /// The `i`-th pipe, to drive its connection; its key stays as it is.
    pub fn pipes_mut(&mut self, i: usize) -> (r: &mut PipeTransport)
        requires
            i < old(self).pipe_views().len(),
        ensures
            r@ == old(self).pipe_views()[i as int].1,
            final(self).pipe_views() == old(self).pipe_views().update(i as int, (old(self).pipe_views()[i as int].0, final(r)@)),
            final(self).known() == old(self).known(),
            final(self).local() == old(self).local(),
            final(self).max_per_node() == old(self).max_per_node(),
    {
        &mut self.pipes[i].pipe
    }

    /// Changing a pipe through `pipes_mut` keeps the manager well formed.
    pub proof fn lemma_pipe_update_wf(before: &CascadeManager, after: &CascadeManager, i: int, v: PipeView)
        requires
            before.wf(),
            0 <= i < before.pipe_views().len(),
            after.known() == before.known(),
            after.pipe_views() == before.pipe_views().update(i, (before.pipe_views()[i].0, v)),
        ensures
            after.wf(),
    {
        let pv = before.pipe_views();
        let u = after.pipe_views();
        assert forall|a: int, b: int| 0 <= a < u.len() && 0 <= b < u.len() && a != b implies u[a].0 != u[b].0 by {
            assert(u[a].0 == pv[a].0);
            assert(u[b].0 == pv[b].0);
        }
    }

    /// Where only the `i`-th pipe changed, and not its key, pipe keys stay
    /// distinct.
    proof fn lemma_pipe_keys_kept(&self, old_pipes: Seq<((Seq<char>, Seq<char>), PipeView)>, i: int)
        requires
            keys_distinct(old_pipes),
            0 <= i < old_pipes.len(),
            self.pipe_views().len() == old_pipes.len(),
            self.pipe_views()[i].0 == old_pipes[i].0,
            forall|j: int| 0 <= j < old_pipes.len() && j != i ==> self.pipe_views()[j] == old_pipes[j],
        ensures
            keys_distinct(self.pipe_views()),
    {
        let nv = self.pipe_views();
        assert forall|a: int, b: int| 0 <= a < nv.len() && 0 <= b < nv.len() && a != b implies nv[a].0 != nv[b].0 by {
            assert(nv[a].0 == old_pipes[a].0);
            assert(nv[b].0 == old_pipes[b].0);
        }
    }
}

/// An optional DID by its text.
pub open spec fn opt_did(o: Option<&str>) -> Option<Seq<char>> {
    match o {
        Some(s) => Some(s@),
        None => None,
    }
}

/// The forwarding candidates are positions of pipes.
proof fn lemma_forward_candidates_in_range(
    pipes: Seq<((Seq<char>, Seq<char>), PipeView)>,
    room: Seq<char>,
    exclude: Option<Seq<char>>,
)
    ensures
        forall|j: int|
            0 <= j < forward_candidates(pipes, room, exclude).len() ==> 0 <= #[trigger] forward_candidates(
                pipes,
                room,
                exclude,
            )[j] < pipes.len(),
    decreases pipes.len(),
{
    if pipes.len() > 0 {
        let init = pipes.drop_last();
        lemma_forward_candidates_in_range(init, room, exclude);
        let r = forward_candidates(init, room, exclude);
        let c = forward_candidates(pipes, room, exclude);
        assert forall|j: int| 0 <= j < c.len() implies 0 <= #[trigger] c[j] < pipes.len() by {
            if j < r.len() {
                assert(c[j] == r[j]);
            }
        }
    }
}

/// Dropping the pipes to a node keeps the others, in order, with distinct
/// keys, and leaves none to that node.
/// Where there is a log per pipe, the logs kept are as many as the pipes
/// kept.
proof fn lemma_logs_not_to_len(
    pipes: Seq<((Seq<char>, Seq<char>), PipeView)>,
    logs: Seq<Seq<ConnectionEvent>>,
    did: Seq<char>,
)
    requires
        logs.len() == pipes.len(),
    ensures
        logs_not_to(pipes, logs, did).len() == pipes_without(pipes, did).len(),
    decreases pipes.len(),
{
    if pipes.len() > 0 {
        lemma_logs_not_to_len(pipes.drop_last(), logs.drop_last(), did);
    }
}

proof fn lemma_pipes_without(pipes: Seq<((Seq<char>, Seq<char>), PipeView)>, did: Seq<char>)
    requires
        keys_distinct(pipes),
    ensures
        keys_distinct(pipes_without(pipes, did)),
        forall|i: int| 0 <= i < pipes_without(pipes, did).len() ==> pipes.contains(#[trigger] pipes_without(pipes, did)[i]),
        forall|i: int| 0 <= i < pipes_without(pipes, did).len() ==> (#[trigger] pipes_without(pipes, did)[i]).0.1 != did,
    decreases pipes.len(),
{
    if pipes.len() > 0 {
        let init = pipes.drop_last();
        assert forall|i: int, j: int|
            0 <= i < init.len() && 0 <= j < init.len() && i != j implies init[i].0 != init[j].0 by {
            assert(init[i] == pipes[i] && init[j] == pipes[j]);
        }
        lemma_pipes_without(init, did);
        let rest = pipes_without(init, did);
        let r = pipes_without(pipes, did);
        let last = pipes.len() - 1;
        assert(pipes[last] == pipes.last());
        assert forall|i: int| 0 <= i < rest.len() implies pipes.contains(#[trigger] rest[i]) by {
            let x = choose|x: int| 0 <= x < init.len() && init[x] == rest[i];
            assert(pipes[x] == init[x]);
        }
        assert forall|i: int| 0 <= i < rest.len() implies rest[i].0 != pipes.last().0 by {
            let x = choose|x: int| 0 <= x < init.len() && init[x] == rest[i];
            assert(pipes[x] == init[x]);
        }
        if pipes.last().0.1 != did {
            assert(r == rest.push(pipes.last()));
            assert forall|i: int, j: int| 0 <= i < r.len() && 0 <= j < r.len() && i != j implies r[i].0
                != r[j].0 by {
                if i < rest.len() && j < rest.len() {
                    assert(r[i] == rest[i] && r[j] == rest[j]);
                } else if i < rest.len() {
                    assert(r[i] == rest[i]);
                } else {
                    assert(r[j] == rest[j]);
                }
            }
            assert forall|i: int| 0 <= i < r.len() implies pipes.contains(#[trigger] r[i]) by {
                if i < rest.len() {
                    assert(r[i] == rest[i]);
                } else {
                    assert(pipes[last] == r[i]);
                }
            }
            assert forall|i: int| 0 <= i < r.len() implies (#[trigger] r[i]).0.1 != did by {
                if i < rest.len() {
                    assert(r[i] == rest[i]);
                }
            }
        }
    }
}

/// Dropping a node from every room keeps rooms and, in each room, node
/// keys distinct.
proof fn lemma_without_node(known: Seq<(Seq<char>, Seq<(Seq<char>, (u32, u32))>)>, did: Seq<char>)
    requires
        keys_distinct(known),
        forall|j: int| 0 <= j < known.len() ==> keys_distinct(#[trigger] known[j].1),
    ensures
        keys_distinct(without_node(known, did)),
        forall|j: int| 0 <= j < without_node(known, did).len() ==> keys_distinct(#[trigger] without_node(known, did)[j].1),
{
    let w = without_node(known, did);
    assert forall|a: int, b: int| 0 <= a < w.len() && 0 <= b < w.len() && a != b implies w[a].0 != w[b].0 by {
        assert(w[a].0 == known[a].0);
        assert(w[b].0 == known[b].0);
    }
    assert forall|j: int| 0 <= j < w.len() implies keys_distinct(#[trigger] w[j].1) by {
        crate::assoc::lemma_map_remove(known[j].1, did);
    }
}

/// An announce is recorded: the node is then among the known nodes of its
/// room with the load it announced, and every other room keeps its nodes.
pub proof fn lemma_announce_recorded(
    known: Seq<(Seq<char>, Seq<(Seq<char>, (u32, u32))>)>,
    room: Seq<char>,
    did: Seq<char>,
    load: (u32, u32),
)
    requires
        keys_distinct(known),
        forall|j: int| 0 <= j < known.len() ==> keys_distinct(#[trigger] known[j].1),
    ensures
        ({
            let after = map_insert(known, room, map_insert(room_nodes(known, room), did, load));
            &&& lookup(room_nodes(after, room), did) == Some(load)
            &&& forall|other: Seq<char>| other != room ==> room_nodes(after, other) == room_nodes(known, other)
        }),
{
    let nodes = room_nodes(known, room);
    if has_key(known, room) {
        let i = key_pos(known, room);
        lemma_key_pos_unique(known, room, i);
        assert(keys_distinct(known[i].1));
    }
    lemma_map_insert(nodes, did, load);
    lemma_map_insert(known, room, map_insert(nodes, did, load));
    let after = map_insert(known, room, map_insert(nodes, did, load));
    assert forall|other: Seq<char>| other != room implies room_nodes(after, other) == room_nodes(known, other) by {
        assert(lookup(after, other) == lookup(known, other));
    }
}

/// A node that left is known in no room and no pipe to it remains.
pub proof fn lemma_node_removed(
    known: Seq<(Seq<char>, Seq<(Seq<char>, (u32, u32))>)>,
    pipes: Seq<((Seq<char>, Seq<char>), PipeView)>,
    did: Seq<char>,
)
    requires
        keys_distinct(known),
        forall|j: int| 0 <= j < known.len() ==> keys_distinct(#[trigger] known[j].1),
        keys_distinct(pipes),
    ensures
        forall|room: Seq<char>| !has_key(#[trigger] room_nodes(without_node(known, did), room), did),
        forall|i: int|
            0 <= i < pipes_without(pipes, did).len() ==> (#[trigger] pipes_without(pipes, did)[i]).0.1 != did,
{
    lemma_pipes_without(pipes, did);
    lemma_without_node(known, did);
    let w = without_node(known, did);
    assert forall|room: Seq<char>| !has_key(#[trigger] room_nodes(w, room), did) by {
        if has_key(w, room) {
            let i = key_pos(w, room);
            assert(w[i].1 == crate::assoc::map_remove(known[i].1, did));
            crate::assoc::lemma_map_remove(known[i].1, did);
            lemma_key_pos_unique(w, room, i);
        }
    }
}

/// The node a new participant is redirected to can take one, is the least
/// loaded of those that can, and, below capacity, has more than two
/// participants fewer than this node; at capacity, the participant is
/// redirected whenever some known node of the room can take it.
pub proof fn lemma_redirect_choice(
    known: Seq<(Seq<char>, Seq<(Seq<char>, (u32, u32))>)>,
    room: Seq<char>,
    local_count: u32,
    max_per_node: u32,
)
    ensures
        ({
            let nodes = room_nodes(known, room);
            let at_capacity = local_count >= max_per_node;
            &&& redirect_choice(known, room, local_count, max_per_node) matches Some(i) ==> {
                &&& 0 <= i < nodes.len()
                &&& can_take(nodes[i], at_capacity)
                &&& forall|j: int| 0 <= j < nodes.len() && can_take(#[trigger] nodes[j], at_capacity) ==> nodes[i].1.0 <= nodes[j].1.0
                &&& !at_capacity ==> nodes[i].1.0 + 2 < local_count
            }
            &&& at_capacity && has_key(known, room) && (exists|j: int| 0 <= j < nodes.len() && can_take(
                #[trigger] nodes[j],
                at_capacity,
            )) ==> redirect_choice(known, room, local_count, max_per_node) is Some
        }),
{
    let nodes = room_nodes(known, room);
    let at_capacity = local_count >= max_per_node;
    if at_capacity && has_key(known, room) && (exists|j: int| 0 <= j < nodes.len() && can_take(#[trigger] nodes[j], at_capacity)) {
        let j = choose|j: int| 0 <= j < nodes.len() && can_take(#[trigger] nodes[j], at_capacity);
        lemma_least_loaded_exists(nodes, at_capacity, j);
    }
}

/// Where some node can take a participant, a first least-loaded one exists.
proof fn lemma_least_loaded_exists(nodes: Seq<(Seq<char>, (u32, u32))>, at_capacity: bool, j: int)
    requires
        0 <= j < nodes.len(),
        can_take(nodes[j], at_capacity),
    ensures
        exists|i: int| is_least_loaded(nodes, at_capacity, i),
    decreases nodes.len(),
{
    let init = nodes.drop_last();
    let n = nodes.len() - 1;
    assert forall|k: int| 0 <= k < n implies #[trigger] nodes[k] == init[k] by {}
    if exists|k: int| 0 <= k < init.len() && can_take(#[trigger] init[k], at_capacity) {
        let k0 = choose|k: int| 0 <= k < init.len() && can_take(#[trigger] init[k], at_capacity);
        lemma_least_loaded_exists(init, at_capacity, k0);
        let i = choose|i: int| is_least_loaded(init, at_capacity, i);
        assert(init[i] == nodes[i]);
        if can_take(nodes[n], at_capacity) && nodes[n].1.0 < nodes[i].1.0 {
            assert forall|x: int| 0 <= x < nodes.len() && can_take(nodes[x], at_capacity) implies nodes[n].1.0 <= nodes[x].1.0 by {
                if x < n {
                    assert(init[x] == nodes[x]);
                }
            }
            assert forall|x: int| 0 <= x < n && can_take(nodes[x], at_capacity) implies nodes[x].1.0 > nodes[n].1.0 by {
                assert(init[x] == nodes[x]);
            }
            assert(is_least_loaded(nodes, at_capacity, n));
        } else {
            assert forall|x: int| 0 <= x < nodes.len() && can_take(nodes[x], at_capacity) implies nodes[i].1.0 <= nodes[x].1.0 by {
                if x < n {
                    assert(init[x] == nodes[x]);
                }
            }
            assert forall|x: int| 0 <= x < i && can_take(nodes[x], at_capacity) implies nodes[x].1.0 > nodes[i].1.0 by {
                assert(init[x] == nodes[x]);
            }
            assert(is_least_loaded(nodes, at_capacity, i));
        }
    } else {
        assert forall|k: int| 0 <= k < n implies !can_take(#[trigger] nodes[k], at_capacity) by {
            assert(init[k] == nodes[k]);
        }
        assert(j == n);
        assert(is_least_loaded(nodes, at_capacity, n));
    }
}

/// Media goes only to established pipes of its room, never to the
/// excluded node, and to each at most once.
pub proof fn lemma_forward_candidates(
    pipes: Seq<((Seq<char>, Seq<char>), PipeView)>,
    room: Seq<char>,
    exclude: Option<Seq<char>>,
)
    ensures
        forall|k: int|
            0 <= k < forward_candidates(pipes, room, exclude).len() ==> {
                let i = #[trigger] forward_candidates(pipes, room, exclude)[k];
                &&& 0 <= i < pipes.len()
                &&& pipes[i].0.0 == room
                &&& exclude != Some(pipes[i].0.1)
                &&& pipes[i].1.established
            },
        forall|a: int, b: int|
            0 <= a < b < forward_candidates(pipes, room, exclude).len() ==> #[trigger] forward_candidates(
                pipes,
                room,
                exclude,
            )[a] < #[trigger] forward_candidates(pipes, room, exclude)[b],
    decreases pipes.len(),
{
    if pipes.len() > 0 {
        let init = pipes.drop_last();
        lemma_forward_candidates(init, room, exclude);
        lemma_forward_candidates_in_range(init, room, exclude);
        let r = forward_candidates(init, room, exclude);
        let c = forward_candidates(pipes, room, exclude);
        assert forall|k: int| 0 <= k < c.len() implies {
            let i = #[trigger] c[k];
            &&& 0 <= i < pipes.len()
            &&& pipes[i].0.0 == room
            &&& exclude != Some(pipes[i].0.1)
            &&& pipes[i].1.established
        } by {
            if k < r.len() {
                assert(c[k] == r[k]);
                assert(init[r[k]] == pipes[r[k]]);
            } else {
                assert(c[k] == pipes.len() - 1);
                assert(pipes.last() == pipes[pipes.len() - 1]);
            }
        }
        assert forall|a: int, b: int| 0 <= a < b < c.len() implies #[trigger] c[a] < #[trigger] c[b] by {
            if b < r.len() {
                assert(c[a] == r[a] && c[b] == r[b]);
            } else {
                assert(c[a] == r[a]);
            }
        }
    }
}

/// Removing a key twice is removing it once.
proof fn lemma_map_remove_twice(s: Seq<(Seq<char>, (u32, u32))>, k: Seq<char>)
    ensures
        crate::assoc::map_remove(crate::assoc::map_remove(s, k), k) == crate::assoc::map_remove(s, k),
    decreases s.len(),
{
    if s.len() > 0 {
        lemma_map_remove_twice(s.drop_last(), k);
        let m = crate::assoc::map_remove(s, k);
        if s.last().0 != k {
            assert(m.drop_last() =~= crate::assoc::map_remove(s.drop_last(), k));
            assert(m.last() == s.last());
        }
    }
}

/// Removing every pair of a sequence whose keys are all `k` leaves nothing.
proof fn lemma_map_remove_all(s: Seq<(Seq<char>, (u32, u32))>, k: Seq<char>)
    requires
        forall|j: int| 0 <= j < s.len() ==> (#[trigger] s[j]).0 == k,
    ensures
        crate::assoc::map_remove(s, k).len() == 0,
    decreases s.len(),
{
    if s.len() > 0 {
        assert forall|j: int| 0 <= j < s.len() - 1 implies (#[trigger] s.drop_last()[j]).0 == k by {
            assert(s.drop_last()[j] == s[j]);
        }
        lemma_map_remove_all(s.drop_last(), k);
        assert(s[s.len() - 1] == s.last());
    }
}

/// Dropping the pipes to a node twice is dropping them once.
proof fn lemma_pipes_without_twice(pipes: Seq<((Seq<char>, Seq<char>), PipeView)>, did: Seq<char>)
    ensures
        pipes_without(pipes_without(pipes, did), did) == pipes_without(pipes, did),
    decreases pipes.len(),
{
    if pipes.len() > 0 {
        lemma_pipes_without_twice(pipes.drop_last(), did);
        let m = pipes_without(pipes, did);
        if pipes.last().0.1 != did {
            assert(m.drop_last() =~= pipes_without(pipes.drop_last(), did));
            assert(m.last() == pipes.last());
        }
    }
}

/// Removing a node is idempotent, and a room whose only known nodes were
/// that node has none left, so it is no longer cascaded.
pub proof fn lemma_node_removal(
    known: Seq<(Seq<char>, Seq<(Seq<char>, (u32, u32))>)>,
    pipes: Seq<((Seq<char>, Seq<char>), PipeView)>,
    did: Seq<char>,
    room: Seq<char>,
)
    requires
        keys_distinct(known),
    ensures
        without_node(without_node(known, did), did) == without_node(known, did),
        pipes_without(pipes_without(pipes, did), did) == pipes_without(pipes, did),
        (forall|j: int| 0 <= j < room_nodes(known, room).len() ==> (#[trigger] room_nodes(known, room)[j]).0 == did)
            ==> room_nodes(without_node(known, did), room).len() == 0,
{
    let w = without_node(known, did);
    assert forall|j: int| 0 <= j < w.len() implies #[trigger] without_node(w, did)[j] == w[j] by {
        lemma_map_remove_twice(known[j].1, did);
    }
    assert(without_node(w, did) =~= w);
    lemma_pipes_without_twice(pipes, did);
    if forall|j: int| 0 <= j < room_nodes(known, room).len() ==> (#[trigger] room_nodes(known, room)[j]).0 == did {
        if has_key(w, room) {
            let i = key_pos(w, room);
            assert(w[i].0 == known[i].0);
            lemma_key_pos_unique(known, room, i);
            assert(room_nodes(known, room) == known[i].1);
            assert forall|j: int| 0 <= j < known[i].1.len() implies (#[trigger] known[i].1[j]).0 == did by {
                assert(room_nodes(known, room)[j] == known[i].1[j]);
            }
            lemma_map_remove_all(known[i].1, did);
            assert forall|a: int, b: int| 0 <= a < w.len() && 0 <= b < w.len() && a != b implies w[a].0 != w[b].0 by {
                assert(w[a].0 == known[a].0 && w[b].0 == known[b].0);
            }
            lemma_key_pos_unique(w, room, i);
        }
    }
}

} // verus!
