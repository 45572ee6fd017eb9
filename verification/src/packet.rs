//! The application packet envelope: text messages of the form
//! `"<event>:<payload>"`, parsed for named-event dispatch.

use vstd::prelude::*;

verus! {

use vstd::string::{StrSliceExecFns, StringExecFns};

/// Position of the first `c` at or after `i`, or a negative value if none.
pub open spec fn find_char(s: Seq<char>, c: char, i: int) -> int
    decreases s.len() - i when 0 <= i <= s.len()
{
    if i >= s.len() {
        -1
    } else if s[i] == c {
        i
    } else {
        find_char(s, c, i + 1)
    }
}

/// The event name of a message: everything before the first colon, or the
/// whole message when it carries no colon.
pub open spec fn packet_event(s: Seq<char>) -> Seq<char> {
    let p = find_char(s, ':', 0);
    if p < 0 {
        s
    } else {
        s.take(p)
    }
}

/// The payload of a message: everything after the first colon, or empty
/// when it carries no colon.
pub open spec fn packet_payload(s: Seq<char>) -> Seq<char> {
    let p = find_char(s, ':', 0);
    if p < 0 {
        Seq::empty()
    } else {
        s.skip(p + 1)
    }
}

/// The parsed envelope of a text message.
pub struct Packet {
    pub event: String,
    pub payload: String,
}

fn find_colon_from(s: &str, i: usize, n: usize) -> (r: Option<usize>)
    requires
        n == s@.len(),
        i <= n,
    ensures
        match r {
            Some(p) => find_char(s@, ':', i as int) == p && i <= p < n,
            None => find_char(s@, ':', i as int) < 0,
        },
    decreases n - i,
{
    if i >= n {
        None
    } else if s.get_char(i) == ':' {
        Some(i)
    } else {
        find_colon_from(s, i + 1, n)
    }
}

impl Packet {
    /// Parse a message into its envelope, splitting at the first colon.
    pub fn from_string(message: String) -> (r: Packet)
        ensures
            r.event@ == packet_event(message@),
            r.payload@ == packet_payload(message@),
    {
        let s: &str = message.as_str();
        let n: usize = s.unicode_len();
        match find_colon_from(s, 0, n) {
            None => Packet { event: message, payload: String::new() },
            Some(p) => {
                let event: String = s.substring_char(0, p).to_owned();
                let payload: String = s.substring_char(p + 1, n).to_owned();
                proof {
                    assert(event@ =~= packet_event(message@));
                    assert(payload@ =~= packet_payload(message@));
                }
                Packet { event, payload }
            },
        }
    }

    /// Render an event and payload as the wire form `"<event>:<payload>"`.
    pub fn to_string(event: String, payload: String) -> (r: String)
        ensures
            r@ == event@ + seq![':'] + payload@,
    {
        proof {
            reveal_strlit(":");
            assert(":"@ =~= seq![':']);
        }
        let mut out: String = event;
        out.append(":");
        out.append(payload.as_str());
        out
    }
}

pub proof fn lemma_find_char_props(s: Seq<char>, c: char, i: int)
    requires
        0 <= i <= s.len(),
    ensures
        find_char(s, c, i) >= 0 ==> i <= find_char(s, c, i) < s.len() && s[find_char(s, c, i)]
            == c && (forall|j: int| i <= j < find_char(s, c, i) ==> s[j] != c),
        find_char(s, c, i) < 0 ==> (forall|j: int| i <= j < s.len() ==> s[j] != c),
    decreases s.len() - i,
{
    if i >= s.len() {
    } else if s[i] == c {
    } else {
        lemma_find_char_props(s, c, i + 1);
    }
}

pub proof fn lemma_find_char_at(s: Seq<char>, c: char, i: int, p: int)
    requires
        0 <= i <= p < s.len(),
        s[p] == c,
        forall|j: int| i <= j < p ==> s[j] != c,
    ensures
        find_char(s, c, i) == p,
    decreases p - i,
{
    if i < p {
        lemma_find_char_at(s, c, i + 1, p);
    }
}

/// The envelope round trip: a rendered packet whose event name carries no
/// colon parses back to the same event and payload.
pub proof fn lemma_packet_round_trip(event: Seq<char>, payload: Seq<char>)
    requires
        find_char(event, ':', 0) < 0,
    ensures
        packet_event(event + seq![':'] + payload) == event,
        packet_payload(event + seq![':'] + payload) == payload,
{
    let full = event + seq![':'] + payload;
    lemma_find_char_props(event, ':', 0);
    assert(full[event.len() as int] == ':');
    assert forall|j: int| 0 <= j < event.len() implies full[j] != ':' by {
        assert(full[j] == event[j]);
    }
    lemma_find_char_at(full, ':', 0, event.len() as int);
    assert(full.take(event.len() as int) =~= event);
    assert(full.skip(event.len() as int + 1) =~= payload);
}

} // verus!
