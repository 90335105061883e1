//! The str0m WebRTC engine as the SFU uses it.
//!
//! Each item here is trusted: Verus believes its contract and does not read
//! its body. An `Rtc` is an opaque protocol state machine; where these
//! items promise nothing of a result, the verified code that calls them
//! states what holds whatever came back. A media id (`Mid`) crosses into
//! the library as its text.
//!
//! A `Connection` carries, as ghost state, the log of what the library
//! handed it: frames written and keyframes asked for on a media id, media
//! made inactive, and its close; beside it, the media ids for which it
//! asked str0m for a writer and the number of SDP batches it opened. Only
//! the items here change this state.
use vstd::prelude::*;
use std::time::Instant;
use str0m::{Candidate, Input, Output, Rtc};
use str0m::change::{SdpAnswer, SdpApi, SdpOffer, SdpPendingOffer};
use str0m::media::{Direction, KeyframeRequestKind, MediaData, Mid};
use crate::ids::MediaKind;

verus! {

/// str0m's `Rtc`: one peer connection (ICE, DTLS, SDP and RTP state).
#[verifier::external_type_specification]
#[verifier::external_body]
pub struct ExRtc(Rtc);

/// std's `Instant`: a point on the monotonic clock.
#[verifier::external_type_specification]
#[verifier::external_body]
pub struct ExInstant(Instant);

/// str0m's `Candidate`: an ICE candidate.
#[verifier::external_type_specification]
#[verifier::external_body]
pub struct ExCandidate(Candidate);

/// str0m's `Input`: a timeout or a received datagram for an `Rtc`.
#[verifier::external_type_specification]
#[verifier::external_body]
pub struct ExInput<'a>(Input<'a>);

/// str0m's `Output`: a timeout, a datagram to send or an event of an `Rtc`.
#[verifier::external_type_specification]
#[verifier::external_body]
pub struct ExOutput(Output);

/// What the library handed a connection.
pub enum ConnectionEvent {
    /// A frame written on the media with this id.
    Write(Seq<char>),
    /// A keyframe (picture loss indication) asked for on the media with this id.
    KeyframeRequest(Seq<char>),
    /// The media with this id made inactive.
    Inactive(Seq<char>),
    /// The connection closed.
    Disconnect,
}

/// A WebRTC connection of the SFU: a str0m `Rtc` built with str0m's
/// default configuration by `Connection::new`, which is the only way to
/// make one. Its `Rtc` is private, so it is never one built in RTP mode,
/// the mode in which str0m's `Rtc::writer` panics.
pub struct Connection {
    rtc: Rtc,
    log: Ghost<Seq<ConnectionEvent>>,
    tries: Ghost<Seq<Seq<char>>>,
    batches: Ghost<nat>,
}

impl Connection {
    /// What the library handed this connection, in order.
    pub closed spec fn log(&self) -> Seq<ConnectionEvent> {
        self.log@
    }

    /// The media ids for which the library asked str0m for a writer (to
    /// write a frame or to ask for a keyframe), in order, whether or not
    /// str0m gave one.
    pub closed spec fn tries(&self) -> Seq<Seq<char>> {
        self.tries@
    }

    /// How many batches of SDP changes the library opened on this
    /// connection to apply or to accept.
    pub closed spec fn batches(&self) -> nat {
        self.batches@
    }

    /// The library closed this connection.
    pub open spec fn closed(&self) -> bool {
        self.log().contains(ConnectionEvent::Disconnect)
    }

    /// A new connection whose clock starts at `start`.
    pub fn new(start: Instant) -> (c: Connection)
        ensures
            c.log() == Seq::<ConnectionEvent>::empty(),
            c.tries() == Seq::<Seq<char>>::empty(),
            c.batches() == 0,
    {
        connection_new(start)
    }

    /// Whether the connection has not been closed; a connection that the
    /// library closed never is.
    pub fn is_alive(&self) -> (alive: bool)
        ensures
            self.closed() ==> !alive,
    {
        rtc_is_alive(self)
    }

    /// Adds a local ICE candidate; false where str0m refuses it.
    pub fn add_local_candidate(&mut self, candidate: Candidate) -> (added: bool)
        ensures
            final(self).log() == old(self).log(),
    {
        rtc_add_local_candidate(self, candidate)
    }

    /// The next output of the connection; an error comes back as its text.
    pub fn poll_output(&mut self) -> (r: Result<Output, String>)
        ensures
            final(self).log() == old(self).log(),
    {
        rtc_poll_output(self)
    }

    /// Whether an input is for this connection.
    pub fn accepts(&self, input: &Input) -> (r: bool) {
        rtc_accepts(self, input)
    }

    /// Hands the connection an input; an error comes back as its text.
    pub fn handle_input(&mut self, input: Input) -> (r: Result<(), String>)
        ensures
            final(self).log() == old(self).log(),
    {
        rtc_handle_input(self, input)
    }
}

/// Calls `Rtc::new`, which builds an `Rtc` with str0m's default
/// configuration (not in RTP mode); nothing is handed to it yet.
#[verifier::external_body]
pub(crate) fn connection_new(start: Instant) -> (c: Connection)
    ensures
        c.log() == Seq::<ConnectionEvent>::empty(),
        c.tries() == Seq::<Seq<char>>::empty(),
        c.batches() == 0,
{
    Connection { rtc: Rtc::new(start), log: Ghost(Seq::empty()), tries: Ghost(Seq::empty()), batches: Ghost(0) }
}

/// Calls `Rtc::add_local_candidate`: whether str0m took the candidate.
#[verifier::external_body]
pub(crate) fn rtc_add_local_candidate(c: &mut Connection, candidate: Candidate) -> (added: bool)
    ensures
        final(c).log() == old(c).log(),
{
    c.rtc.add_local_candidate(candidate).is_some()
}

/// Calls `Rtc::poll_output`; an error comes back as its text.
#[verifier::external_body]
pub(crate) fn rtc_poll_output(c: &mut Connection) -> (r: Result<Output, String>)
    ensures
        final(c).log() == old(c).log(),
{
    c.rtc.poll_output().map_err(|e| e.to_string())
}

/// Calls `Rtc::accepts`.
#[verifier::external_body]
pub(crate) fn rtc_accepts(c: &Connection, input: &Input) -> (r: bool) {
    c.rtc.accepts(input)
}

/// Calls `Rtc::handle_input`; an error comes back as its text.
#[verifier::external_body]
pub(crate) fn rtc_handle_input(c: &mut Connection, input: Input) -> (r: Result<(), String>)
    ensures
        final(c).log() == old(c).log(),
{
    c.rtc.handle_input(input).map_err(|e| e.to_string())
}

/// str0m's `SdpApi`: a batch of SDP changes to one `Rtc`.
#[verifier::external_type_specification]
#[verifier::external_body]
pub struct ExSdpApi<'a>(SdpApi<'a>);

/// str0m's `SdpOffer`.
#[verifier::external_type_specification]
#[verifier::external_body]
pub struct ExSdpOffer(SdpOffer);

/// str0m's `SdpAnswer`.
#[verifier::external_type_specification]
#[verifier::external_body]
pub struct ExSdpAnswer(SdpAnswer);

/// str0m's `SdpPendingOffer`: the changes of an offer that awaits its answer.
#[verifier::external_type_specification]
#[verifier::external_body]
pub struct ExSdpPendingOffer(SdpPendingOffer);

/// str0m's `MediaData`: one media frame received from a peer.
#[verifier::external_type_specification]
#[verifier::external_body]
pub struct ExMediaData(MediaData);


/// Calls `Rtc::is_alive`: whether the connection is not closed. str0m
/// closes a connection for good on `Rtc::disconnect`, so one that the
/// library closed is not alive; otherwise the answer is str0m's.
#[verifier::external_body]
pub(crate) fn rtc_is_alive(c: &Connection) -> (alive: bool)
    ensures
        c.closed() ==> !alive,
{
    c.rtc.is_alive()
}

/// Calls `Rtc::disconnect`, which closes the connection.
#[verifier::external_body]
pub(crate) fn rtc_disconnect(c: &mut Connection)
    ensures
        final(c).log() == old(c).log().push(ConnectionEvent::Disconnect),
        final(c).tries() == old(c).tries(),
        final(c).batches() == old(c).batches(),
{
    c.rtc.disconnect()
}

/// A server offer that awaits its answer: str0m's pending offer, with the
/// media ids whose changes the library put into it.
pub struct PendingOffer {
    offer: SdpPendingOffer,
    media: Ghost<Seq<Seq<char>>>,
}

impl PendingOffer {
    /// The media ids whose changes the library put into the offer, in
    /// order.
    pub closed spec fn media(&self) -> Seq<Seq<char>> {
        self.media@
    }
}

/// A batch of SDP changes to one connection: str0m's `SdpApi`, with the
/// media ids whose changes the library put into it.
pub struct SdpBatch<'a> {
    api: SdpApi<'a>,
    media: Ghost<Seq<Seq<char>>>,
}

impl<'a> SdpBatch<'a> {
    /// The media ids whose changes the library put into the batch, in
    /// order.
    pub closed spec fn media(&self) -> Seq<Seq<char>> {
        self.media@
    }
}

/// Calls `Rtc::sdp_api`, which opens a batch of SDP changes; it carries
/// none yet.
#[verifier::external_body]
pub(crate) fn rtc_sdp_api(c: &mut Connection) -> (api: SdpBatch<'_>)
    ensures
        final(c).log() == old(c).log(),
        final(c).tries() == old(c).tries(),
        final(c).batches() == old(c).batches() + 1,
        api.media() == Seq::<Seq<char>>::empty(),
{
    SdpBatch { api: c.rtc.sdp_api(), media: Ghost(Seq::empty()) }
}

/// Calls `SdpApi::merge`, which puts the changes of a pending offer into
/// the batch, before its own (str0m leaves out those the connection has
/// already taken up).
#[verifier::external_body]
pub(crate) fn sdp_merge(api: &mut SdpBatch<'_>, pending: PendingOffer)
    ensures
        final(api).media() == pending.media() + old(api).media(),
{
    api.api.merge(pending.offer)
}

/// Calls `SdpApi::add_media` for a send-only media of `kind` (no stream
/// id, track id or simulcast) and returns the text of the new media id.
/// The id is chosen by str0m; the batch then carries the new media.
#[verifier::external_body]
pub(crate) fn sdp_add_send_only_media(api: &mut SdpBatch<'_>, kind: MediaKind) -> (mid: String)
    ensures
        final(api).media() == old(api).media().push(mid@),
{
    let kind = match kind {
        MediaKind::Audio => str0m::media::MediaKind::Audio,
        MediaKind::Video => str0m::media::MediaKind::Video,
    };
    api.api.add_media(kind, Direction::SendOnly, None, None, None).to_string()
}

/// Calls `Rtc::sdp_api` and `SdpApi::set_direction` to make the media with
/// id text `mid` inactive; the direction changes in the session and the
/// batch is not applied.
#[verifier::external_body]
pub(crate) fn sdp_set_inactive(c: &mut Connection, mid: &String)
    ensures
        final(c).log() == old(c).log().push(ConnectionEvent::Inactive(mid@)),
        final(c).tries() == old(c).tries(),
        final(c).batches() == old(c).batches(),
{
    c.rtc.sdp_api().set_direction(Mid::from(mid.as_str()), Direction::Inactive)
}

/// Calls `SdpApi::apply`: an offer and its pending changes where the batch
/// needs a negotiation, nothing where it is empty or applied directly. The
/// pending offer holds the batch's changes.
#[verifier::external_body]
pub(crate) fn sdp_apply(api: SdpBatch<'_>) -> (r: Option<(SdpOffer, PendingOffer)>)
    ensures
        r matches Some(applied) ==> applied.1.media() == api.media(),
{
    match api.api.apply() {
        Some((offer, pending)) => Some((offer, PendingOffer { offer: pending, media: api.media })),
        None => None,
    }
}

/// Calls `SdpApi::accept_offer`; an error comes back as its text.
#[verifier::external_body]
pub(crate) fn sdp_accept_offer(api: SdpBatch<'_>, offer: SdpOffer) -> (r: Result<SdpAnswer, String>) {
    api.api.accept_offer(offer).map_err(|e| e.to_string())
}

/// Calls `SdpApi::accept_answer` for a pending offer; an error comes back
/// as its text.
#[verifier::external_body]
pub(crate) fn sdp_accept_answer(api: SdpBatch<'_>, pending: PendingOffer, answer: SdpAnswer) -> (r:
    Result<(), String>) {
    api.api.accept_answer(pending.offer, answer).map_err(|e| e.to_string())
}

/// Calls `serde_json::to_string` on an SDP offer. str0m serializes an
/// offer as a struct of two strings (its type and its SDP text), which
/// serde_json writes into memory without fail: the result is always `Ok`.
#[verifier::external_body]
pub(crate) fn sdp_offer_to_json(offer: &SdpOffer) -> (r: Result<String, String>)
    ensures
        r is Ok,
{
    serde_json::to_string(offer).map_err(|e| e.to_string())
}

/// Calls `serde_json::to_string` on an SDP answer. str0m serializes an
/// answer as a struct of two strings (its type and its SDP text), which
/// serde_json writes into memory without fail: the result is always `Ok`.
#[verifier::external_body]
pub(crate) fn sdp_answer_to_json(answer: &SdpAnswer) -> (r: Result<String, String>)
    ensures
        r is Ok,
{
    serde_json::to_string(answer).map_err(|e| e.to_string())
}

/// What `serde_json::from_str` makes of a text as an SDP offer: nothing
/// where it parses, else the text of its error.
pub uninterp spec fn sdp_offer_json_error(json: Seq<char>) -> Option<Seq<char>>;

/// What `serde_json::from_str` makes of a text as an SDP answer: nothing
/// where it parses, else the text of its error.
pub uninterp spec fn sdp_answer_json_error(json: Seq<char>) -> Option<Seq<char>>;

/// Calls `serde_json::from_str` for an SDP offer; an error comes back as
/// its text. Parsing depends on the text alone, so whether it fails, and
/// with which message, is named by `sdp_offer_json_error`; the offer it
/// gives is not modelled.
#[verifier::external_body]
pub(crate) fn sdp_offer_from_json(json: &str) -> (r: Result<SdpOffer, String>)
    ensures
        match r {
            Ok(_) => sdp_offer_json_error(json@) is None,
            Err(e) => sdp_offer_json_error(json@) == Some(e@),
        },
{
    serde_json::from_str::<SdpOffer>(json).map_err(|e| e.to_string())
}

/// Calls `serde_json::from_str` for an SDP answer; an error comes back as
/// its text. Whether it fails, and with which message, is named by
/// `sdp_answer_json_error`; the answer it gives is not modelled.
#[verifier::external_body]
pub(crate) fn sdp_answer_from_json(json: &str) -> (r: Result<SdpAnswer, String>)
    ensures
        match r {
            Ok(_) => sdp_answer_json_error(json@) is None,
            Err(e) => sdp_answer_json_error(json@) == Some(e@),
        },
{
    serde_json::from_str::<SdpAnswer>(json).map_err(|e| e.to_string())
}

/// Calls `Rtc::writer` for the media with id text `mid` and, where it
/// gives a writer (the connection is alive and has that media), writes the
/// frame `data` on it with `Writer::write` (payload type, arrival time,
/// media time, payload); the write's error comes back as its text. str0m
/// panics in `Rtc::writer` only for an `Rtc` in RTP mode, which a
/// `Connection` never holds, and gives no writer once the connection is
/// closed.
#[verifier::external_body]
pub(crate) fn rtc_write(c: &mut Connection, mid: &String, data: &MediaData) -> (r: Option<Result<(), String>>)
    ensures
        r is Some ==> final(c).log() == old(c).log().push(ConnectionEvent::Write(mid@)),
        r is None ==> final(c).log() == old(c).log(),
        old(c).closed() ==> r is None,
        final(c).tries() == old(c).tries().push(mid@),
        final(c).batches() == old(c).batches(),
{
    match c.rtc.writer(Mid::from(mid.as_str())) {
        Some(w) => Some(w.write(data.pt, data.network_time, data.time, data.data.clone()).map_err(|e| e.to_string())),
        None => None,
    }
}

/// Calls `Rtc::writer` for the media with id text `mid` and, where it
/// gives a writer, asks it for a keyframe with `Writer::request_keyframe`
/// (a picture loss indication on the main stream); the request's error
/// comes back as its text. No writer comes once the connection is closed.
#[verifier::external_body]
pub(crate) fn rtc_request_keyframe(c: &mut Connection, mid: &String) -> (r: Option<Result<(), String>>)
    ensures
        r is Some ==> final(c).log() == old(c).log().push(ConnectionEvent::KeyframeRequest(mid@)),
        r is None ==> final(c).log() == old(c).log(),
        old(c).closed() ==> r is None,
        final(c).tries() == old(c).tries().push(mid@),
        final(c).batches() == old(c).batches(),
{
    match c.rtc.writer(Mid::from(mid.as_str())) {
        Some(mut w) => Some(w.request_keyframe(None, KeyframeRequestKind::Pli).map_err(|e| e.to_string())),
        None => None,
    }
}

} // verus!
