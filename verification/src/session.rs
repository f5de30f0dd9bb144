//! Sessions kept in memory, and the response that shows a session.

use crate::cgi::{elapsed, elapsed_between};
use crate::entries::{distinct, entry_map, lemma_absent, lemma_present, position, put};
use crate::http::{Request, RequestView};
use crate::number::{decimal, digits, lemma_digits_chars, push_number};
use crate::params::{cookie, cookie_value, json_escape, json_text, query_parameter, query_value};
use crate::response::{plain, Response, ResponseView};
use crate::text::{is_space, lemma_first_is, split, split_once, trim, trim_start, CharSet};
use vstd::prelude::*;
use vstd::slice::slice_to_vec;
use vstd::utf8::encode_utf8;

verus! {

/// How long a session is kept after its last visit, in milliseconds.
pub const SESSION_LIFETIME: u64 = 3_600_000;

/// The moment at which a request is worked on, and the process that does so.
#[derive(Debug, Clone, Copy, PartialEq, Eq, Structural)]
pub struct Stamp {
    /// The process.
    pub pid: u32,
    /// Milliseconds since the start of 1970.
    pub millis: u128,
    /// Milliseconds of the clock that sessions and connections go by.
    pub now: u64,
}

/// A visitor. Times are in milliseconds of one clock.
#[derive(Debug)]
pub struct Session {
    pub username: String,
    pub visits: u64,
    pub last_seen: u64,
}

#[verifier::ext_equal]
pub struct SessionView {
    pub username: Seq<char>,
    pub visits: u64,
    pub last_seen: u64,
}

impl View for Session {
    type V = SessionView;

    open spec fn view(&self) -> SessionView {
        SessionView {
            username: self.username@,
            visits: self.visits,
            last_seen: self.last_seen,
        }
    }
}

/// The sessions by their identifiers, and the number of identifiers made. No identifier occurs
/// twice.
#[derive(Debug)]
pub struct SessionStore {
    entries: Vec<(String, Session)>,
    seq: u64,
}

/// What a session store holds.
#[verifier::ext_equal]
pub struct StoreView {
    pub sessions: Map<Seq<char>, SessionView>,
    pub seq: u64,
}

impl View for SessionStore {
    type V = StoreView;

    closed spec fn view(&self) -> StoreView {
        StoreView { sessions: entry_map(self.entries@), seq: self.seq }
    }
}

/// A number counted up by one, from the largest back to zero.
pub open spec fn next_count(n: u64) -> u64 {
    if n == u64::MAX {
        0
    } else {
        (n + 1) as u64
    }
}

/// The session after a visit.
pub open spec fn visited(
    sessions: Map<Seq<char>, SessionView>,
    id: Seq<char>,
    username: Seq<char>,
    now: u64,
) -> SessionView {
    if sessions.dom().contains(id) {
        SessionView {
            username: if username.len() > 0 {
                username
            } else {
                sessions[id].username
            },
            visits: next_count(sessions[id].visits),
            last_seen: now,
        }
    } else {
        SessionView { username, visits: 1, last_seen: now }
    }
}

/// A new identifier.
pub open spec fn fresh_id(pid: u32, millis: u128, seq: u64) -> Seq<char> {
    digits(pid as int, 16) + digits(millis as int, 16) + digits(seq as int, 16)
}

/// The identifier that the request's cookie gives.
pub open spec fn known_id(request: RequestView) -> Option<Seq<char>> {
    match request.field("cookie"@) {
        Some(header) => cookie(header, "session_id"@),
        None => None,
    }
}

/// The identifier of the session that the request belongs to.
pub open spec fn session_id(store: StoreView, request: RequestView, stamp: Stamp) -> Seq<char> {
    match known_id(request) {
        Some(id) => id,
        None => fresh_id(stamp.pid, stamp.millis, next_count(store.seq)),
    }
}

/// The user that the request names.
pub open spec fn session_user(request: RequestView) -> Seq<char> {
    match query_parameter(request.query, "user"@) {
        Some(user) => user,
        None => "auditor"@,
    }
}

/// The store after a request for the session.
pub open spec fn after_visit(store: StoreView, request: RequestView, stamp: Stamp) -> StoreView {
    let id = session_id(store, request, stamp);
    StoreView {
        sessions: store.sessions.insert(
            id,
            visited(store.sessions, id, session_user(request), stamp.now),
        ),
        seq: if known_id(request) is None {
            next_count(store.seq)
        } else {
            store.seq
        },
    }
}

/// A session in JSON.
pub open spec fn session_json(id: Seq<char>, session: SessionView) -> Seq<char> {
    "{\"session_id\":\""@ + json_text(id) + "\",\"user\":\""@ + json_text(session.username)
        + "\",\"visits\":"@ + decimal(session.visits as int) + "}"@
}

/// The cookie that carries the identifier.
pub open spec fn session_cookie(id: Seq<char>) -> Seq<char> {
    "session_id="@ + id + "; Path=/; Max-Age=3600; SameSite=Lax"@
}

/// The response that shows a session.
pub open spec fn session_page(id: Seq<char>, session: SessionView) -> ResponseView {
    plain(200, encode_utf8(session_json(id, session))).with(
        "Content-Type"@,
        "application/json; charset=utf-8"@,
    ).with("Set-Cookie"@, session_cookie(id))
}

/// The store once the sessions without a visit for long enough are gone.
pub open spec fn without_expired(store: StoreView, now: u64) -> StoreView {
    StoreView {
        sessions: store.sessions.restrict(
            Set::new(
                |id: Seq<char>|
                    store.sessions.dom().contains(id) && elapsed(
                        store.sessions[id].last_seen,
                        now,
                    ) < SESSION_LIFETIME,
            ),
        ),
        ..store
    }
}

fn show_session(id: &str, session: &Session) -> (r: Response)
    ensures
        r@ == session_page(id@, session@),
{
    let mut body = "{\"session_id\":\"".to_owned();
    body.append(json_escape(id).as_str());
    body.append("\",\"user\":\"");
    body.append(json_escape(session.username.as_str()).as_str());
    body.append("\",\"visits\":");
    push_number(&mut body, session.visits as u128, 10);
    body.append("}");
    assert(body@ =~= session_json(id@, session@));
    let mut set_cookie = "session_id=".to_owned();
    set_cookie.append(id);
    set_cookie.append("; Path=/; Max-Age=3600; SameSite=Lax");
    assert(set_cookie@ =~= session_cookie(id@));
    Response::new(200, slice_to_vec(body.as_str().as_bytes())).header(
        "Content-Type",
        "application/json; charset=utf-8",
    ).header("Set-Cookie", set_cookie.as_str())
}

impl SessionStore {
    #[verifier::type_invariant]
    spec fn no_id_twice(self) -> bool {
        distinct(self.entries@)
    }

    /// A store without sessions.
    pub fn new() -> (r: SessionStore)
        ensures
            r@ == (StoreView { sessions: Map::empty(), seq: 0 }),
    {
        SessionStore { entries: Vec::new(), seq: 0 }
    }

    /// The session with the given identifier.
    pub fn get(&self, id: &str) -> (r: Option<&Session>)
        ensures
            match r {
                Some(s) => self@.sessions.dom().contains(id@) && self@.sessions[id@] == s@,
                None => !self@.sessions.dom().contains(id@),
            },
    {
        proof {
            use_type_invariant(self);
        }
        match position(&self.entries, id) {
            Some(k) => Some(&self.entries[k].1),
            None => None,
        }
    }

    fn insert(&mut self, id: String, session: Session)
        ensures
            final(self)@ == (StoreView {
                sessions: old(self)@.sessions.insert(id@, session@),
                ..old(self)@
            }),
    {
        proof {
            use_type_invariant(&*self);
        }
        let mut entries: Vec<(String, Session)> = Vec::new();
        std::mem::swap(&mut entries, &mut self.entries);
        put(&mut entries, id, session);
        self.entries = entries;
    }

    /// Makes a new identifier, from the process, the time and a counter.
    pub fn new_session_id(&mut self, pid: u32, millis: u128) -> (r: String)
        ensures
            final(self)@ == (StoreView { seq: next_count(old(self)@.seq), ..old(self)@ }),
            r@ == fresh_id(pid, millis, next_count(old(self)@.seq)),
    {
        proof {
            use_type_invariant(&*self);
        }
        self.seq = self.seq.wrapping_add(1);
        let mut id = String::new();
        push_number(&mut id, pid as u128, 16);
        push_number(&mut id, millis, 16);
        push_number(&mut id, self.seq as u128, 16);
        assert(id@ =~= fresh_id(pid, millis, self.seq));
        id
    }

    /// Visits the session that the request belongs to, or a new one, and shows it.
    pub fn session_response(&mut self, request: &Request, stamp: Stamp) -> (r: Response)
        ensures
            final(self)@ == after_visit(old(self)@, request@, stamp),
            r@ == session_page(
                session_id(old(self)@, request@, stamp),
                final(self)@.sessions[session_id(old(self)@, request@, stamp)],
            ),
    {
        let existing = match request.header("cookie") {
            Some(header) => cookie_value(header, "session_id"),
            None => None,
        };
        let id = match existing {
            Some(id) => id,
            None => self.new_session_id(stamp.pid, stamp.millis),
        };
        let username = match query_value(request.query.as_str(), "user") {
            Some(user) => user,
            None => "auditor".to_owned(),
        };
        let session = match self.get(id.as_str()) {
            Some(known) => Session {
                username: if username.as_str().is_empty() {
                    known.username.clone()
                } else {
                    username
                },
                visits: known.visits.wrapping_add(1),
                last_seen: stamp.now,
            },
            None => Session { username, visits: 1, last_seen: stamp.now },
        };
        let response = show_session(id.as_str(), &session);
        self.insert(id, session);
        response
    }

    /// Forgets the sessions without a visit for long enough.
    pub fn expire_sessions(&mut self, now: u64)
        ensures
            final(self)@ == without_expired(old(self)@, now),
    {
        proof {
            use_type_invariant(&*self);
        }
        let ghost before = self.entries@;
        let mut entries: Vec<(String, Session)> = Vec::new();
        std::mem::swap(&mut entries, &mut self.entries);
        let mut kept: Vec<(String, Session)> = Vec::new();
        let ghost mut n: int = before.len() as int;
        assert(before.take(n) =~= before);
        while entries.len() > 0
            invariant
                0 <= n <= before.len(),
                entries@ == before.take(n),
                distinct(before),
                self.entries@.len() == 0,
                self.seq == old(self)@.seq,
                old(self)@.sessions == entry_map(before),
                forall|k: int|
                    0 <= k < kept@.len() ==> from_tail(before, n, now, #[trigger] kept@[k]),
                forall|k: int|
                    n <= k < before.len() && elapsed((#[trigger] before[k]).1.last_seen, now)
                        < SESSION_LIFETIME ==> kept@.contains(before[k]),
                distinct(kept@),
            decreases entries.len(),
        {
            let ghost kept_before = kept@;
            let entry = entries.pop();
            proof {
                n = n - 1;
                assert(entries@ =~= before.take(n));
            }
            match entry {
                None => {},
                Some(entry) => {
                    assert(entry == before[n]);
                    if elapsed_between(entry.1.last_seen, now) < SESSION_LIFETIME {
                        assert forall|k: int| 0 <= k < kept_before.len() implies (
                        #[trigger] kept_before[k]).0@ != entry.0@ by {
                            assert(from_tail(before, n + 1, now, kept_before[k]));
                        }
                        kept.push(entry);
                        assert(kept@.last() == before[n]);
                    }
                },
            }
            assert forall|k: int| 0 <= k < kept@.len() implies from_tail(
                before,
                n,
                now,
                #[trigger] kept@[k],
            ) by {
                if k < kept_before.len() {
                    assert(from_tail(before, n + 1, now, kept_before[k]));
                    assert(kept@[k] == kept_before[k]);
                } else {
                    assert(kept@[k] == before[n]);
                }
            }
            assert forall|k: int|
                n <= k < before.len() && elapsed((#[trigger] before[k]).1.last_seen, now)
                    < SESSION_LIFETIME implies kept@.contains(before[k]) by {
                if k > n {
                    assert(kept_before.contains(before[k]));
                    let j = kept_before.index_of(before[k]);
                    assert(kept@[j] == before[k]);
                }
            }
        }
        proof {
            lemma_kept(before, kept@, now);
        }
        self.entries = kept;
    }
}

spec fn from_tail(
    before: Seq<(String, Session)>,
    n: int,
    now: u64,
    entry: (String, Session),
) -> bool {
    elapsed(entry.1.last_seen, now) < SESSION_LIFETIME && exists|k: int|
        n <= k < before.len() && #[trigger] before[k] == entry
}

proof fn lemma_kept(before: Seq<(String, Session)>, kept: Seq<(String, Session)>, now: u64)
    requires
        distinct(before),
        distinct(kept),
        forall|k: int| 0 <= k < kept.len() ==> from_tail(before, 0, now, #[trigger] kept[k]),
        forall|k: int|
            0 <= k < before.len() && elapsed((#[trigger] before[k]).1.last_seen, now)
                < SESSION_LIFETIME ==> kept.contains(before[k]),
    ensures
        entry_map(kept) == entry_map(before).restrict(
            Set::new(
                |id: Seq<char>|
                    entry_map(before).dom().contains(id) && elapsed(
                        entry_map(before)[id].last_seen,
                        now,
                    ) < SESSION_LIFETIME,
            ),
        ),
{
    let all = entry_map(before);
    let left = entry_map(kept);
    let right = all.restrict(
        Set::new(
            |id: Seq<char>|
                all.dom().contains(id) && elapsed(all[id].last_seen, now) < SESSION_LIFETIME,
        ),
    );
    assert forall|id: Seq<char>|
        #![trigger left.dom().contains(id)]
        #![trigger right.dom().contains(id)]
        #![trigger left[id]]
        #![trigger right[id]]
        left.dom().contains(id) == right.dom().contains(id) && (left.dom().contains(id)
            ==> left[id] == right[id]) by {
        if exists|k: int| 0 <= k < kept.len() && (#[trigger] kept[k]).0@ == id {
            let k = choose|k: int| 0 <= k < kept.len() && (#[trigger] kept[k]).0@ == id;
            lemma_present(kept, k);
            assert(from_tail(before, 0, now, kept[k]));
            let j = choose|j: int| 0 <= j < before.len() && #[trigger] before[j] == kept[k];
            lemma_present(before, j);
        } else {
            lemma_absent(kept, id);
            if exists|j: int| 0 <= j < before.len() && (#[trigger] before[j]).0@ == id {
                let j = choose|j: int| 0 <= j < before.len() && (#[trigger] before[j]).0@ == id;
                lemma_present(before, j);
                if elapsed(before[j].1.last_seen, now) < SESSION_LIFETIME {
                    assert(kept.contains(before[j]));
                    let k = kept.index_of(before[j]);
                    assert(kept[k].0@ == id);
                }
            } else {
                lemma_absent(before, id);
            }
        }
    }
    assert(left.dom() =~= right.dom());
    assert(left =~= right);
}

/// A request that carries the cookie of a session's response visits the same session again: the
/// identifier stays, the count of visits goes up by one, no identifier is made, and the other
/// sessions stay as they are.
pub proof fn law_cookie_continues_the_session(
    store: StoreView,
    request: RequestView,
    id: Seq<char>,
    stamp: Stamp,
)
    requires
        store.sessions.dom().contains(id),
        store.sessions[id].visits < u64::MAX,
        known_id(request) == Some(id),
    ensures
        session_id(store, request, stamp) == id,
        after_visit(store, request, stamp).sessions[id].visits == store.sessions[id].visits + 1,
        after_visit(store, request, stamp).seq == store.seq,
        forall|other: Seq<char>|
            other != id && store.sessions.dom().contains(other) ==> #[trigger] after_visit(
                store,
                request,
                stamp,
            ).sessions[other] == store.sessions[other],
{
}

/// A session that has been visited is there until an hour has passed without a visit, and not
/// after that.
pub proof fn law_session_lives_an_hour(
    store: StoreView,
    request: RequestView,
    stamp: Stamp,
    later: u64,
)
    requires
        stamp.now <= later,
    ensures
        without_expired(after_visit(store, request, stamp), later).sessions.dom().contains(
            session_id(store, request, stamp),
        ) <==> later - stamp.now < SESSION_LIFETIME,
{
}

/// The cookie that a session's response sets is read back as the identifier, where that holds no
/// semicolon and does not end in white space.
pub proof fn law_cookie_is_read_back(id: Seq<char>)
    requires
        !id.contains(';'),
        id.len() > 0 ==> !is_space(id.last()),
    ensures
        cookie("session_id="@ + id, "session_id"@) == Some(id),
{
    reveal_strlit("session_id=");
    reveal_strlit("session_id");
    let s = "session_id="@ + id;
    let name = "session_id"@;
    let semicolon = CharSet::Only(';');
    assert forall|j: int| 0 <= j < s.len() implies !semicolon.has(#[trigger] s[j]) by {
        if j >= 11 {
            assert(s[j] == id[j - 11]);
            if s[j] == ';' {
                assert(id.contains(';'));
            }
        }
    }
    lemma_first_is(s, semicolon, 0, s.len() as int);
    assert(split(s, semicolon) =~= seq![s]);
    assert(s[0] == 's');
    assert(trim_start(s, CharSet::Space) == s);
    assert(s.last() == if id.len() > 0 {
        id.last()
    } else {
        '='
    });
    assert(trim(s) == s);
    assert forall|j: int| 0 <= j < 10 implies !CharSet::Only('=').has(#[trigger] s[j]) by {
        assert(s[j] == name[j]);
    }
    lemma_first_is(s, CharSet::Only('='), 0, 10);
    assert(s.take(10) =~= name);
    assert(s.skip(11) =~= id);
    assert(split_once(trim(s), '=') == Some((name, id)));
    assert(seq![s][0] == s);
}

/// A visitor without a cookie gets a new session, and one that sends the cookie of that session
/// back visits it a second time.
pub proof fn law_second_visit_is_counted(
    store: StoreView,
    first: RequestView,
    second: RequestView,
    stamp: Stamp,
    later: Stamp,
)
    requires
        known_id(first) is None,
        !store.sessions.dom().contains(fresh_id(stamp.pid, stamp.millis, next_count(store.seq))),
        second.field("cookie"@) == Some(
            "session_id="@ + fresh_id(stamp.pid, stamp.millis, next_count(store.seq)),
        ),
    ensures
        ({
            let id = session_id(store, first, stamp);
            let once = after_visit(store, first, stamp);
            let twice = after_visit(once, second, later);
            &&& once.sessions[id].visits == 1
            &&& session_id(once, second, later) == id
            &&& twice.sessions[id].visits == 2
        }),
{
    let seq = next_count(store.seq);
    let id = fresh_id(stamp.pid, stamp.millis, seq);
    lemma_digits_chars(stamp.pid as int, 16);
    lemma_digits_chars(stamp.millis as int, 16);
    lemma_digits_chars(seq as int, 16);
    let a = digits(stamp.pid as int, 16);
    let b = digits(stamp.millis as int, 16);
    let c = digits(seq as int, 16);
    if id.contains(';') {
        let j = id.index_of(';');
        if j < a.len() {
            assert(id[j] == a[j]);
        } else if j < a.len() + b.len() {
            assert(id[j] == b[j - a.len()]);
        } else {
            assert(id[j] == c[j - a.len() - b.len()]);
        }
    }
    assert(id.last() == c[c.len() - 1]);
    law_cookie_is_read_back(id);
}

} // verus!
