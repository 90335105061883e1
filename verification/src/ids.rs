//! Identifiers shared by every part of the SFU: participants, rooms and
//! the two kinds of media track.
use vstd::prelude::*;

verus! {

/// A participant of a room: a browser peer or a pipe transport to another
/// SFU node.
#[derive(Clone, Copy, Debug, PartialEq, Eq, Hash, Structural)]
pub struct ParticipantId {
    pub value: u64,
}

impl ParticipantId {
    pub fn new(value: u64) -> (r: ParticipantId)
        ensures
            r.value == value,
    {
        ParticipantId { value }
    }
}

/// The kind of a media track.
#[derive(Clone, Copy, Debug, PartialEq, Eq, Hash, Structural)]
pub enum MediaKind {
    Audio,
    Video,
}

/// The word by which a kind is named in events and track mappings.
pub open spec fn kind_label(kind: MediaKind) -> Seq<char> {
    match kind {
        MediaKind::Audio => seq!['a', 'u', 'd', 'i', 'o'],
        MediaKind::Video => seq!['v', 'i', 'd', 'e', 'o'],
    }
}

/// The name of a media kind: "audio" or "video".
pub fn media_kind_label(kind: MediaKind) -> (s: String)
    ensures
        s@ == kind_label(kind),
{
    match kind {
        MediaKind::Audio => {
            let s = "audio";
            proof {
                reveal_strlit("audio");
            }
            s.to_owned()
        },
        MediaKind::Video => {
            let s = "video";
            proof {
                reveal_strlit("video");
            }
            s.to_owned()
        },
    }
}

/// A call room: a named room inside a neighbourhood.
pub struct RoomId {
    pub neighbourhood_url: String,
    pub room_name: String,
}

impl View for RoomId {
    type V = (Seq<char>, Seq<char>);

    open spec fn view(&self) -> (Seq<char>, Seq<char>) {
        (self.neighbourhood_url@, self.room_name@)
    }
}

/// The text form of a room: "neighbourhood_url:room_name".
pub open spec fn room_key(room: (Seq<char>, Seq<char>)) -> Seq<char> {
    room.0 + seq![':'] + room.1
}

/// Whether `s` holds a ':'.
pub open spec fn has_colon(s: Seq<char>) -> bool {
    exists|i: int| 0 <= i < s.len() && s[i] == ':'
}

/// `i` is the position of the last ':' of `s`.
pub open spec fn is_last_colon(s: Seq<char>, i: int) -> bool {
    &&& 0 <= i < s.len()
    &&& s[i] == ':'
    &&& forall|j: int| i < j < s.len() ==> s[j] != ':'
}

/// The room that the text `s` ("neighbourhood_url:room_name") names: split
/// at the last ':', since room names hold none while neighbourhood URLs
/// may; where there is no ':', the whole text as neighbourhood and the room
/// "default".
pub open spec fn parse_room_key(s: Seq<char>) -> (Seq<char>, Seq<char>) {
    if has_colon(s) {
        let i = choose|i: int| is_last_colon(s, i);
        (s.take(i), s.skip(i + 1))
    } else {
        (s, seq!['d', 'e', 'f', 'a', 'u', 'l', 't'])
    }
}

/// Two positions that are both the last ':' are the same.
proof fn lemma_last_colon_unique(s: Seq<char>, i: int, k: int)
    requires
        is_last_colon(s, i),
        is_last_colon(s, k),
    ensures
        i == k,
{
    if i < k {
        assert(s[k] != ':');
    } else if k < i {
        assert(s[i] != ':');
    }
}

impl Clone for RoomId {
    fn clone(&self) -> (r: RoomId)
        ensures
            r@ == self@,
    {
        RoomId { neighbourhood_url: self.neighbourhood_url.clone(), room_name: self.room_name.clone() }
    }
}

impl RoomId {
    pub fn new(neighbourhood_url: &str, room_name: &str) -> (r: RoomId)
        ensures
            r.neighbourhood_url@ == neighbourhood_url@,
            r.room_name@ == room_name@,
    {
        RoomId { neighbourhood_url: neighbourhood_url.to_owned(), room_name: room_name.to_owned() }
    }

    /// A copy of this room id.
    pub fn copy(&self) -> (r: RoomId)
        ensures
            r@ == self@,
    {
        self.clone()
    }

    /// Whether two ids name the same room.
    pub fn same_room(&self, other: &RoomId) -> (b: bool)
        ensures
            b == (self@ == other@),
    {
        self.neighbourhood_url == other.neighbourhood_url && self.room_name == other.room_name
    }

    /// The text form "neighbourhood_url:room_name".
    pub fn to_string(&self) -> (s: String)
        ensures
            s@ == room_key(self@),
    {
        let mut s = self.neighbourhood_url.clone();
        let colon = ":";
        proof {
            reveal_strlit(":");
        }
        s.append(colon);
        s.append(self.room_name.as_str());
        s
    }

    /// The room that a text of the form "neighbourhood_url:room_name"
    /// names, split at its last ':'; a text without ':' names the room
    /// "default" of that neighbourhood.
    pub fn parse(s: &str) -> (r: RoomId)
        ensures
            r@ == parse_room_key(s@),
    {
        let n = s.unicode_len();
        let mut i: usize = n;
        while i > 0
            invariant
                n == s@.len(),
                i <= n,
                forall|j: int| i <= j < n ==> s@[j] != ':',
            decreases i,
        {
            let k = i - 1;
            if s.get_char(k) == ':' {
                let url = s.substring_char(0, k);
                let name = s.substring_char(k + 1, n);
                proof {
                    assert(is_last_colon(s@, k as int));
                    assert(has_colon(s@));
                    let c = choose|c: int| is_last_colon(s@, c);
                    lemma_last_colon_unique(s@, k as int, c);
                    assert(url@ =~= s@.take(k as int));
                    assert(name@ =~= s@.skip(k + 1));
                }
                return RoomId::new(url, name);
            }
            i = k;
        }
        let default_name = "default";
        proof {
            reveal_strlit("default");
            assert(!has_colon(s@));
        }
        RoomId::new(s, default_name)
    }
}

/// The text form of a room names that room again, whatever the
/// neighbourhood URL holds, where the room name holds no ':'.
pub proof fn lemma_room_key_roundtrip(room: (Seq<char>, Seq<char>))
    requires
        !has_colon(room.1),
    ensures
        parse_room_key(room_key(room)) == room,
{
    let s = room_key(room);
    let n = room.0.len() as int;
    assert(s[n] == ':');
    assert forall|j: int| n < j < s.len() implies s[j] != ':' by {
        assert(s[j] == room.1[j - n - 1]);
    }
    assert(is_last_colon(s, n));
    assert(has_colon(s));
    let c = choose|c: int| is_last_colon(s, c);
    lemma_last_colon_unique(s, n, c);
    assert(s.take(n) =~= room.0);
    assert(s.skip(n + 1) =~= room.1);
}

} // verus!
