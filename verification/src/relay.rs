//! Voice activity and active speaker detection.
//!
//! The relay keeps, per participant, the smoothed audio level of its last
//! audio packet, when that packet came and whether the level counts as
//! speech. Levels are non-negative reals; the relay holds each one by its
//! order key, the IEEE-754 bit pattern of the level, under which the order
//! of two non-negative levels is the order of their keys. Times are
//! milliseconds on one monotonic clock.
use vstd::prelude::*;
use crate::ids::{MediaKind, ParticipantId};

verus! {

broadcast use vstd::std_specs::hash::group_hash_axioms;

/// The order key of the level one hundredth, above which a participant counts as
/// speaking.
pub const SPEAKING_THRESHOLD_LEVEL: u64 = 0x3f84_7ae1_47ae_147b;

/// How long after its last audio a participant still counts as speaking.
pub const SPEAKING_TIMEOUT_MS: u64 = 500;

/// The voice activity of one participant.
#[derive(Clone, Copy, Debug, PartialEq, Eq, Structural)]
pub struct VoiceActivityState {
    /// Order key of the smoothed audio level.
    pub level: u64,
    /// When the last audio packet came.
    pub last_audio_ms: u64,
    /// Whether the level counts as speech.
    pub is_speaking: bool,
}

/// Milliseconds from `since` to `now`, zero where `since` lies after `now`.
pub open spec fn elapsed_ms(now: u64, since: u64) -> int {
    if now >= since {
        now - since
    } else {
        0
    }
}

/// The participant's last audio came within the speaking timeout.
pub open spec fn is_recent(st: VoiceActivityState, now: u64) -> bool {
    elapsed_ms(now, st.last_audio_ms) <= SPEAKING_TIMEOUT_MS
}

/// The participant can be the active speaker at `now`.
pub open spec fn is_eligible(st: VoiceActivityState, now: u64) -> bool {
    st.is_speaking && is_recent(st, now)
}

/// The active speaker among `entries` at `now`, with its level: the
/// eligible entry of greatest level; of several with that level, the one
/// that comes last.
pub open spec fn best_speaker(entries: Seq<(ParticipantId, VoiceActivityState)>, now: u64) -> Option<
    (ParticipantId, u64),
>
    decreases entries.len(),
{
    if entries.len() == 0 {
        None
    } else {
        let prev = best_speaker(entries.drop_last(), now);
        let e = entries.last();
        let (id, st) = e;
        let beaten = match prev {
            Some((_, best_level)) => best_level <= st.level,
            None => true,
        };
        if is_eligible(st, now) && beaten {
            Some((id, st.level))
        } else {
            prev
        }
    }
}

/// The ids of the entries are pairwise distinct.
pub open spec fn distinct_ids(entries: Seq<(ParticipantId, VoiceActivityState)>) -> bool {
    forall|i: int, j: int|
        0 <= i < entries.len() && 0 <= j < entries.len() && i != j ==> entries[i].0 != entries[j].0
}

/// The state recorded for `pid`, if any.
pub open spec fn state_of(entries: Seq<(ParticipantId, VoiceActivityState)>, pid: ParticipantId) -> Option<
    VoiceActivityState,
> {
    if exists|i: int| 0 <= i < entries.len() && entries[i].0 == pid {
        let i = choose|i: int| 0 <= i < entries.len() && entries[i].0 == pid;
        Some(entries[i].1)
    } else {
        None
    }
}

/// The best speaker is an eligible entry whose level no eligible entry
/// exceeds, and there is none exactly when no entry is eligible.
pub proof fn lemma_best_speaker_is_loudest(entries: Seq<(ParticipantId, VoiceActivityState)>, now: u64)
    ensures
        best_speaker(entries, now) is None <==> forall|i: int|
            0 <= i < entries.len() ==> !is_eligible(#[trigger] entries[i].1, now),
        best_speaker(entries, now) matches Some(b) ==> exists|i: int|
            0 <= i < entries.len() && entries[i].0 == b.0 && entries[i].1.level == b.1
                && is_eligible(#[trigger] entries[i].1, now),
        best_speaker(entries, now) matches Some(b) ==> forall|i: int|
            0 <= i < entries.len() && is_eligible(#[trigger] entries[i].1, now) ==> entries[i].1.level
                <= b.1,
    decreases entries.len(),
{
    if entries.len() > 0 {
        let init = entries.drop_last();
        lemma_best_speaker_is_loudest(init, now);
        assert forall|i: int| 0 <= i < init.len() implies #[trigger] init[i] == entries[i] by {}
        let prev = best_speaker(init, now);
        let last = entries.len() - 1;
        assert(entries[last] == entries.last());
        let e = entries.last();
        if prev is Some {
            let b = prev->0;
            let k = choose|k: int|
                0 <= k < init.len() && init[k].0 == b.0 && init[k].1.level == b.1
                    && is_eligible(#[trigger] init[k].1, now);
            assert(entries[k] == init[k]);
        }
        if is_eligible(e.1, now) {
            assert(best_speaker(entries, now) is Some);
        } else {
            assert(best_speaker(entries, now) == prev);
            assert forall|i: int| 0 <= i < entries.len() && is_eligible(#[trigger] entries[i].1, now)
                implies i < last by {}
        }
        let r = best_speaker(entries, now);
        if r is Some {
            let b = r->0;
            assert forall|i: int|
                0 <= i < entries.len() && is_eligible(#[trigger] entries[i].1, now) implies entries[i].1.level
                <= b.1 by {
                if i < last {
                    assert(init[i] == entries[i]);
                    assert(is_eligible(init[i].1, now));
                }
            }
        } else {
            assert forall|i: int| 0 <= i < entries.len() implies !is_eligible(#[trigger] entries[i].1, now) by {
                if i < last {
                    assert(init[i] == entries[i]);
                }
            }
        }
    }
}

/// `new` is `old` after audio from `pid` at `now` with level key `level`:
/// its state is replaced (or added last) and the active speaker is
/// recomputed.
pub open spec fn relay_after_audio(old: MediaRelay, new: MediaRelay, pid: ParticipantId, level: u64, now: u64) -> bool {
    let st = VoiceActivityState { level, last_audio_ms: now, is_speaking: level > SPEAKING_THRESHOLD_LEVEL };
    &&& new.pipe_ids() == old.pipe_ids()
    &&& state_of(new.voices(), pid) == Some(st)
    &&& forall|q: ParticipantId| q != pid ==> state_of(new.voices(), q) == state_of(old.voices(), q)
    &&& new.speaker() == match best_speaker(new.voices(), now) {
        Some(b) => Some(b.0),
        None => None,
    }
}

/// `new` is `old` after forgetting `pid` at `now`: its voice activity and
/// pipe transport registration are gone, and the active speaker, if it was
/// `pid`, is recomputed from those who remain.
pub open spec fn relay_after_removal(old: MediaRelay, new: MediaRelay, pid: ParticipantId, now: u64) -> bool {
    &&& state_of(new.voices(), pid) is None
    &&& forall|q: ParticipantId| q != pid ==> state_of(new.voices(), q) == state_of(old.voices(), q)
    &&& new.pipe_ids() == old.pipe_ids().remove(pid.value)
    &&& old.speaker() == Some(pid) ==> new.speaker() == match best_speaker(new.voices(), now) {
        Some(b) => Some(b.0),
        None => None,
    }
    &&& old.speaker() != Some(pid) ==> new.speaker() == old.speaker()
}

/// The media relay's view of voice activity and pipe transports.
///
/// Media forwarding itself runs in the SFU server; the relay decides who
/// the active speaker is and which participants are pipe transports to
/// other SFU nodes (whose media must not go back to the pipe it came from).
pub struct MediaRelay {
    /// Voice activity per participant, in the order of their first audio.
    voice_activity: Vec<(ParticipantId, VoiceActivityState)>,
    /// The current active speaker.
    active_speaker: Option<ParticipantId>,
    /// Participants that are pipe transports rather than users.
    pipe_transport_ids: std::collections::HashSet<u64>,
}

impl MediaRelay {
    /// The voice activity entries, in the order of each participant's
    /// first audio.
    pub closed spec fn voices(&self) -> Seq<(ParticipantId, VoiceActivityState)> {
        self.voice_activity@
    }

    /// The current active speaker.
    pub closed spec fn speaker(&self) -> Option<ParticipantId> {
        self.active_speaker
    }

    /// The values of the ids registered as pipe transports.
    pub closed spec fn pipe_ids(&self) -> Set<u64> {
        self.pipe_transport_ids@
    }

    /// The relay's invariant: one voice entry per participant.
    pub closed spec fn wf(&self) -> bool {
        distinct_ids(self.voice_activity@)
    }

    /// A well-formed relay holds one voice entry per participant.
    pub proof fn lemma_wf_distinct(&self)
        requires
            self.wf(),
        ensures
            distinct_ids(self.voices()),
    {
    }

    pub fn new() -> (r: MediaRelay)
        ensures
            r.wf(),
            r.voices() == Seq::<(ParticipantId, VoiceActivityState)>::empty(),
            r.speaker() is None,
            r.pipe_ids() == Set::<u64>::empty(),
    {
        MediaRelay {
            voice_activity: Vec::new(),
            active_speaker: None,
            pipe_transport_ids: std::collections::HashSet::new(),
        }
    }

    /// Position of `pid` among the voice entries.
    fn find_voice(&self, pid: &ParticipantId) -> (r: Option<usize>)
        requires
            self.wf(),
        ensures
            match r {
                Some(i) => i < self.voices().len() && self.voices()[i as int].0 == *pid,
                None => forall|i: int| 0 <= i < self.voices().len() ==> self.voices()[i].0 != *pid,
            },
    {
        let mut i: usize = 0;
        while i < self.voice_activity.len()
            invariant
                i <= self.voice_activity@.len(),
                forall|j: int| 0 <= j < i ==> self.voice_activity@[j].0 != *pid,
            decreases self.voice_activity@.len() - i,
        {
            if self.voice_activity[i].0 == *pid {
                return Some(i);
            }
            i = i + 1;
        }
        None
    }

    /// The recorded state of a participant, if it has sent audio.
    pub fn voice_state(&self, pid: &ParticipantId) -> (r: Option<VoiceActivityState>)
        requires
            self.wf(),
        ensures
            r == state_of(self.voices(), *pid),
    {
        match self.find_voice(pid) {
            Some(i) => {
                proof {
                    let k = choose|k: int|
                        0 <= k < self.voices().len() && self.voices()[k].0 == *pid;
                    assert(k == i);
                }
                Some(self.voice_activity[i].1)
            },
            None => None,
        }
    }

    /// The order key of a participant's smoothed level; a participant that
    /// has not sent audio is at level zero, whose key is 0.
    pub fn voice_level(&self, pid: &ParticipantId) -> (r: u64)
        requires
            self.wf(),
        ensures
            r == match state_of(self.voices(), *pid) {
                Some(st) => st.level,
                None => 0,
            },
    {
        match self.voice_state(pid) {
            Some(st) => st.level,
            None => 0,
        }
    }

    /// Records audio from `pid` at `now` whose smoothed level has order
    /// key `level`, then recomputes the active speaker. Media of another
    /// kind changes nothing.
    pub fn update_voice_activity(&mut self, pid: &ParticipantId, kind: MediaKind, level: u64, now: u64)
        requires
            old(self).wf(),
        ensures
            final(self).wf(),
            final(self).pipe_ids() == old(self).pipe_ids(),
            kind == MediaKind::Video ==> *final(self) == *old(self),
            kind == MediaKind::Audio ==> relay_after_audio(*old(self), *final(self), *pid, level, now),
            kind == MediaKind::Audio ==> {
                let st = VoiceActivityState {
                    level,
                    last_audio_ms: now,
                    is_speaking: level > SPEAKING_THRESHOLD_LEVEL,
                };
                &&& state_of(final(self).voices(), *pid) == Some(st)
                &&& forall|q: ParticipantId|
                    q != *pid ==> state_of(final(self).voices(), q) == state_of(old(self).voices(), q)
                &&& final(self).voices() == (if state_of(old(self).voices(), *pid) is Some {
                    old(self).voices().update(
                        old(self).voices().index_of((*pid, state_of(old(self).voices(), *pid)->0)),
                        (*pid, st),
                    )
                } else {
                    old(self).voices().push((*pid, st))
                })
                &&& final(self).speaker() == match best_speaker(final(self).voices(), now) {
                    Some(b) => Some(b.0),
                    None => None,
                }
            },
    {
        if kind != MediaKind::Audio {
            return;
        }
        let st = VoiceActivityState {
            level,
            last_audio_ms: now,
            is_speaking: level > SPEAKING_THRESHOLD_LEVEL,
        };
        let ghost old_v = self.voice_activity@;
        match self.find_voice(pid) {
            Some(i) => {
                proof {
                    let k = choose|k: int| 0 <= k < old_v.len() && old_v[k].0 == *pid;
                    assert(k == i);
                    let e = (*pid, old_v[k].1);
                    assert(old_v[k] == e);
                    let j = old_v.index_of(e);
                    assert(old_v.contains(e));
                    assert(old_v[j] == e);
                    assert(j == k);
                }
                self.voice_activity.set(i, (*pid, st));
                proof {
                    let new_v = self.voice_activity@;
                    assert forall|q: ParticipantId|
                        q != *pid implies state_of(new_v, q) == state_of(old_v, q) by {
                        if exists|m: int| 0 <= m < new_v.len() && new_v[m].0 == q {
                            let m = choose|m: int| 0 <= m < new_v.len() && new_v[m].0 == q;
                            assert(old_v[m].0 == q);
                        }
                        if exists|m: int| 0 <= m < old_v.len() && old_v[m].0 == q {
                            let m = choose|m: int| 0 <= m < old_v.len() && old_v[m].0 == q;
                            assert(new_v[m].0 == q);
                        }
                    }
                    assert(new_v[i as int].0 == *pid);
                    let k = choose|k: int| 0 <= k < new_v.len() && new_v[k].0 == *pid;
                    assert(k == i);
                }
            },
            None => {
                self.voice_activity.push((*pid, st));
                proof {
                    let new_v = self.voice_activity@;
                    assert(state_of(old_v, *pid) is None);
                    assert forall|q: ParticipantId|
                        q != *pid implies state_of(new_v, q) == state_of(old_v, q) by {
                        if exists|m: int| 0 <= m < new_v.len() && new_v[m].0 == q {
                            let m = choose|m: int| 0 <= m < new_v.len() && new_v[m].0 == q;
                            assert(old_v[m].0 == q);
                        }
                        if exists|m: int| 0 <= m < old_v.len() && old_v[m].0 == q {
                            let m = choose|m: int| 0 <= m < old_v.len() && old_v[m].0 == q;
                            assert(new_v[m].0 == q);
                        }
                    }
                    let last = new_v.len() - 1;
                    assert(new_v[last].0 == *pid);
                    let k = choose|k: int| 0 <= k < new_v.len() && new_v[k].0 == *pid;
                    assert(k == last);
                }
            },
        }
        self.update_active_speaker(now);
    }

    /// Recomputes the active speaker at `now`: the speaking participant
    /// with recent audio and the greatest level, the latest to have joined
    /// the voice entries among equals, or nobody.
    pub fn update_active_speaker(&mut self, now: u64)
        requires
            old(self).wf(),
        ensures
            final(self).wf(),
            final(self).voices() == old(self).voices(),
            final(self).pipe_ids() == old(self).pipe_ids(),
            final(self).speaker() == match best_speaker(old(self).voices(), now) {
                Some(b) => Some(b.0),
                None => None,
            },
    {
        let mut best: Option<(ParticipantId, u64)> = None;
        let mut i: usize = 0;
        while i < self.voice_activity.len()
            invariant
                i <= self.voice_activity@.len(),
                best == best_speaker(self.voice_activity@.take(i as int), now),
            decreases self.voice_activity@.len() - i,
        {
            let (pid, st) = self.voice_activity[i];
            let recent = if now >= st.last_audio_ms {
                now - st.last_audio_ms <= SPEAKING_TIMEOUT_MS
            } else {
                true
            };
            proof {
                let t = self.voice_activity@.take(i + 1);
                assert(t.drop_last() =~= self.voice_activity@.take(i as int));
                assert(t.last() == (pid, st));
            }
            if st.is_speaking && recent {
                match best {
                    Some((_, best_level)) => {
                        if best_level <= st.level {
                            best = Some((pid, st.level));
                        }
                    },
                    None => {
                        best = Some((pid, st.level));
                    },
                }
            }
            i = i + 1;
        }
        proof {
            assert(self.voice_activity@.take(i as int) =~= self.voice_activity@);
        }
        self.active_speaker = match best {
            Some((pid, _)) => Some(pid),
            None => None,
        };
    }

    /// The current active speaker, if any.
    pub fn active_speaker(&self) -> (r: Option<ParticipantId>)
        ensures
            r == self.speaker(),
    {
        self.active_speaker
    }

    /// Whether `pid` counts as speaking at `now`: its level counts as
    /// speech and its last audio came within the timeout.
    pub fn is_speaking(&self, pid: &ParticipantId, now: u64) -> (r: bool)
        requires
            self.wf(),
        ensures
            r == match state_of(self.voices(), *pid) {
                Some(st) => is_eligible(st, now),
                None => false,
            },
    {
        match self.voice_state(pid) {
            Some(st) => st.is_speaking && (if now >= st.last_audio_ms {
                now - st.last_audio_ms <= SPEAKING_TIMEOUT_MS
            } else {
                true
            }),
            None => false,
        }
    }

    /// Sets the voice activity state of `pid` directly, as if its last
    /// audio had produced it; the active speaker is left as it was.
    pub fn set_voice_state(&mut self, pid: &ParticipantId, st: VoiceActivityState)
        requires
            old(self).wf(),
        ensures
            final(self).wf(),
            final(self).pipe_ids() == old(self).pipe_ids(),
            final(self).speaker() == old(self).speaker(),
            state_of(final(self).voices(), *pid) == Some(st),
            forall|q: ParticipantId|
                q != *pid ==> state_of(final(self).voices(), q) == state_of(old(self).voices(), q),
            final(self).voices() == (if state_of(old(self).voices(), *pid) is Some {
                old(self).voices().update(
                    old(self).voices().index_of((*pid, state_of(old(self).voices(), *pid)->0)),
                    (*pid, st),
                )
            } else {
                old(self).voices().push((*pid, st))
            }),
    {
        let ghost old_v = self.voice_activity@;
        match self.find_voice(pid) {
            Some(i) => {
                proof {
                    let k = choose|k: int| 0 <= k < old_v.len() && old_v[k].0 == *pid;
                    assert(k == i);
                    let e = (*pid, old_v[k].1);
                    assert(old_v[k] == e);
                    let j = old_v.index_of(e);
                    assert(old_v.contains(e));
                    assert(old_v[j] == e);
                    assert(j == k);
                }
                self.voice_activity.set(i, (*pid, st));
                proof {
                    let new_v = self.voice_activity@;
                    assert forall|q: ParticipantId|
                        q != *pid implies state_of(new_v, q) == state_of(old_v, q) by {
                        if exists|m: int| 0 <= m < new_v.len() && new_v[m].0 == q {
                            let m = choose|m: int| 0 <= m < new_v.len() && new_v[m].0 == q;
                            assert(old_v[m].0 == q);
                        }
                        if exists|m: int| 0 <= m < old_v.len() && old_v[m].0 == q {
                            let m = choose|m: int| 0 <= m < old_v.len() && old_v[m].0 == q;
                            assert(new_v[m].0 == q);
                        }
                    }
                    assert(new_v[i as int].0 == *pid);
                    let k = choose|k: int| 0 <= k < new_v.len() && new_v[k].0 == *pid;
                    assert(k == i);
                }
            },
            None => {
                self.voice_activity.push((*pid, st));
                proof {
                    let new_v = self.voice_activity@;
                    assert forall|q: ParticipantId|
                        q != *pid implies state_of(new_v, q) == state_of(old_v, q) by {
                        if exists|m: int| 0 <= m < new_v.len() && new_v[m].0 == q {
                            let m = choose|m: int| 0 <= m < new_v.len() && new_v[m].0 == q;
                            assert(old_v[m].0 == q);
                        }
                        if exists|m: int| 0 <= m < old_v.len() && old_v[m].0 == q {
                            let m = choose|m: int| 0 <= m < old_v.len() && old_v[m].0 == q;
                            assert(new_v[m].0 == q);
                        }
                    }
                    let last = new_v.len() - 1;
                    assert(new_v[last].0 == *pid);
                    let k = choose|k: int| 0 <= k < new_v.len() && new_v[k].0 == *pid;
                    assert(k == last);
                }
            },
        }
    }

    /// Forgets `pid`: its voice activity and its pipe transport
    /// registration. If it was the active speaker, the active speaker is
    /// recomputed at `now` from those who remain.
    pub fn remove_participant(&mut self, pid: &ParticipantId, now: u64)
        requires
            old(self).wf(),
        ensures
            final(self).wf(),
            relay_after_removal(*old(self), *final(self), *pid, now),
    {
        let ghost old_v = self.voice_activity@;
        match self.find_voice(pid) {
            Some(i) => {
                self.voice_activity.remove(i);
                proof {
                    let new_v = self.voice_activity@;
                    assert(new_v =~= old_v.remove(i as int));
                    assert forall|a: int, b: int|
                        0 <= a < new_v.len() && 0 <= b < new_v.len() && a != b implies new_v[a].0
                        != new_v[b].0 by {
                        let a2 = if a < i { a } else { a + 1 };
                        let b2 = if b < i { b } else { b + 1 };
                        assert(new_v[a] == old_v[a2]);
                        assert(new_v[b] == old_v[b2]);
                    }
                    assert forall|m: int| 0 <= m < new_v.len() implies new_v[m].0 != *pid by {
                        let m2 = if m < i { m } else { m + 1 };
                        assert(new_v[m] == old_v[m2]);
                    }
                    assert forall|q: ParticipantId|
                        q != *pid implies state_of(new_v, q) == state_of(old_v, q) by {
                        if exists|m: int| 0 <= m < new_v.len() && new_v[m].0 == q {
                            let m = choose|m: int| 0 <= m < new_v.len() && new_v[m].0 == q;
                            let m2 = if m < i { m } else { m + 1 };
                            assert(new_v[m] == old_v[m2]);
                            let k = choose|k: int| 0 <= k < old_v.len() && old_v[k].0 == q;
                            assert(k == m2);
                        }
                        if exists|m: int| 0 <= m < old_v.len() && old_v[m].0 == q {
                            let m = choose|m: int| 0 <= m < old_v.len() && old_v[m].0 == q;
                            assert(m != i);
                            let m3 = if m < i { m } else { m - 1 };
                            assert(new_v[m3] == old_v[m]);
                        }
                    }
                }
            },
            None => {},
        }
        self.pipe_transport_ids.remove(&pid.value);
        if self.active_speaker == Some(*pid) {
            self.active_speaker = None;
            self.update_active_speaker(now);
        }
    }

    /// Registers `pid` as a pipe transport endpoint.
    pub fn register_pipe_transport(&mut self, pid: ParticipantId)
        requires
            old(self).wf(),
        ensures
            final(self).wf(),
            final(self).voices() == old(self).voices(),
            final(self).speaker() == old(self).speaker(),
            final(self).pipe_ids() == old(self).pipe_ids().insert(pid.value),
    {
        self.pipe_transport_ids.insert(pid.value);
    }

    /// Whether `pid` is registered as a pipe transport.
    pub fn is_pipe_transport(&self, pid: &ParticipantId) -> (r: bool)
        ensures
            r == self.pipe_ids().contains(pid.value),
    {
        self.pipe_transport_ids.contains(&pid.value)
    }

    /// Unregisters `pid` as a pipe transport.
    pub fn unregister_pipe_transport(&mut self, pid: &ParticipantId)
        requires
            old(self).wf(),
        ensures
            final(self).wf(),
            final(self).voices() == old(self).voices(),
            final(self).speaker() == old(self).speaker(),
            final(self).pipe_ids() == old(self).pipe_ids().remove(pid.value),
    {
        self.pipe_transport_ids.remove(&pid.value);
    }
}

/// A participant whose last audio is older than the speaking timeout is
/// not speaking and is not chosen as the active speaker.
pub proof fn lemma_silence_times_out(entries: Seq<(ParticipantId, VoiceActivityState)>, now: u64, i: int)
    requires
        distinct_ids(entries),
        0 <= i < entries.len(),
        elapsed_ms(now, entries[i].1.last_audio_ms) > SPEAKING_TIMEOUT_MS,
    ensures
        !is_eligible(entries[i].1, now),
        best_speaker(entries, now) matches Some(b) ==> b.0 != entries[i].0,
{
    lemma_best_speaker_is_loudest(entries, now);
    if best_speaker(entries, now) is Some {
        let b = best_speaker(entries, now)->0;
        let k = choose|k: int|
            0 <= k < entries.len() && entries[k].0 == b.0 && entries[k].1.level == b.1 && is_eligible(
                #[trigger] entries[k].1,
                now,
            );
        assert(k != i);
    }
}

/// A removed participant is neither speaking nor the active speaker.
pub proof fn lemma_removed_is_silent(old: MediaRelay, new: MediaRelay, pid: ParticipantId, now: u64)
    requires
        relay_after_removal(old, new, pid, now),
    ensures
        state_of(new.voices(), pid) is None,
        new.speaker() != Some(pid),
        !new.pipe_ids().contains(pid.value),
{
    let v = new.voices();
    lemma_best_speaker_is_loudest(v, now);
    if old.speaker() == Some(pid) && best_speaker(v, now) is Some {
        let b = best_speaker(v, now)->0;
        let k = choose|k: int|
            0 <= k < v.len() && v[k].0 == b.0 && v[k].1.level == b.1 && is_eligible(#[trigger] v[k].1, now);
        assert(v[k].0 != pid);
    }
}

/// A registered pipe transport is one until it is unregistered; either
/// leaves every other id as it was.
pub proof fn lemma_pipe_registration(ids: Set<u64>, pid: ParticipantId, other: ParticipantId)
    ensures
        ids.insert(pid.value).contains(pid.value),
        !ids.remove(pid.value).contains(pid.value),
        other.value != pid.value ==> ids.insert(pid.value).contains(other.value) == ids.contains(other.value),
        other.value != pid.value ==> ids.remove(pid.value).contains(other.value) == ids.contains(other.value),
{
}

} // verus!
