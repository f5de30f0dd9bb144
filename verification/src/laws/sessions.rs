//! Sessions: how visits are counted, what a visitor is shown, and when a session ends.

use crate::handler::{started, ActionView, StepView};
use crate::http::RequestView;
use crate::laws::requests::law_known_names;
use crate::number::{decimal, digits, lemma_digits_chars};
use crate::params::{cookie, json_text, query_parameter};
use crate::reply::ReplyView;
use crate::session::{
    after_visit, known_id, next_count, session_id, session_page, without_expired, Stamp, StoreView,
};
use vstd::prelude::*;
use vstd::utf8::encode_utf8;

verus! {

/// A request belongs to the session whose identifier its cookie gives; without such a cookie it
/// gets a new identifier, made of the process, the time and a count, in lower-case hexadecimal.
pub proof fn law_identifier_of_a_request(store: StoreView, request: RequestView, stamp: Stamp)
    ensures
        ({
            let given = if request.headers.dom().contains("cookie"@) {
                cookie(request.headers["cookie"@], "session_id"@)
            } else {
                None
            };
            let id = session_id(store, request, stamp);
            &&& known_id(request) == given
            &&& given is Some ==> id == given->0 && after_visit(store, request, stamp).seq == store.seq
            &&& given is None && store.seq < u64::MAX ==> {
                &&& id == digits(stamp.pid as int, 16) + digits(stamp.millis as int, 16) + digits(
                    store.seq + 1,
                    16,
                )
                &&& after_visit(store, request, stamp).seq == store.seq + 1
                &&& forall|i: int|
                    0 <= i < id.len() ==> ('0' <= #[trigger] id[i] <= '9' || 'a' <= id[i] <= 'f')
            }
        }),
{
    law_known_names(request);
    lemma_digits_chars(stamp.pid as int, 16);
    lemma_digits_chars(stamp.millis as int, 16);
    lemma_digits_chars(next_count(store.seq) as int, 16);
    let a = digits(stamp.pid as int, 16);
    let b = digits(stamp.millis as int, 16);
    let c = digits(next_count(store.seq) as int, 16);
    let id = a + b + c;
    assert forall|i: int| 0 <= i < id.len() implies ('0' <= #[trigger] id[i] <= '9' || 'a' <= id[i]
        <= 'f') by {
        if i < a.len() {
            assert(id[i] == a[i]);
        } else if i < a.len() + b.len() {
            assert(id[i] == b[i - a.len()]);
        } else {
            assert(id[i] == c[i - a.len() - b.len()]);
        }
    }
}

/// The first visit makes the session, with the user that the request names; a further one counts
/// one more visit, at its time, and changes the user only where the request names one. No other
/// session changes.
pub proof fn law_visits_are_counted(
    store: StoreView,
    request: RequestView,
    stamp: Stamp,
    other: Seq<char>,
)
    ensures
        ({
            let id = session_id(store, request, stamp);
            let after = after_visit(store, request, stamp);
            let user = match query_parameter(request.query, "user"@) {
                Some(user) => user,
                None => "auditor"@,
            };
            &&& after.sessions.dom().contains(id)
            &&& after.sessions[id].last_seen == stamp.now
            &&& !store.sessions.dom().contains(id) ==> after.sessions[id].visits == 1
                && after.sessions[id].username == user
            &&& store.sessions.dom().contains(id) && store.sessions[id].visits < u64::MAX
                ==> after.sessions[id].visits == store.sessions[id].visits + 1
            &&& store.sessions.dom().contains(id) && user.len() > 0 ==> after.sessions[id].username
                == user
            &&& store.sessions.dom().contains(id) && user.len() == 0
                ==> after.sessions[id].username == store.sessions[id].username
            &&& other != id ==> after.sessions.dom().contains(other)
                == store.sessions.dom().contains(other) && after.sessions[other]
                == store.sessions[other]
        }),
{
}

/// A visitor is shown the session in JSON, with the count of visits and the user after the visit,
/// and is given the cookie that carries the identifier for an hour.
pub proof fn law_visitor_is_shown_the_session(
    store: StoreView,
    request: RequestView,
    stamp: Stamp,
    after: StoreView,
    step: StepView,
)
    requires
        started(ActionView::Session, request, stamp, store, after, step),
    ensures
        ({
            let id = session_id(store, request, stamp);
            let session = after_visit(store, request, stamp).sessions[id];
            &&& after == after_visit(store, request, stamp)
            &&& step matches StepView::Reply(ReplyView::Page(r)) && r.status == 200 && r.body
                == encode_utf8(
                "{\"session_id\":\""@ + json_text(id) + "\",\"user\":\""@ + json_text(
                    session.username,
                ) + "\",\"visits\":"@ + decimal(session.visits as int) + "}"@,
            ) && r.headers.len() == 2 && r.headers.contains(
                ("Content-Type"@, "application/json; charset=utf-8"@),
            ) && r.headers.contains(
                ("Set-Cookie"@, "session_id="@ + id + "; Path=/; Max-Age=3600; SameSite=Lax"@),
            )
        }),
{
    let id = session_id(store, request, stamp);
    let r = session_page(id, after.sessions[id]);
    assert(r.headers[0] == ("Content-Type"@, "application/json; charset=utf-8"@));
    assert(r.headers[1] == (
        "Set-Cookie"@,
        "session_id="@ + id + "; Path=/; Max-Age=3600; SameSite=Lax"@,
    ));
}

/// A request that is not for the session leaves the sessions as they are.
pub proof fn law_other_requests_leave_the_sessions(
    step: StepView,
    request: RequestView,
    stamp: Stamp,
    before: StoreView,
    after: StoreView,
    taken: StepView,
)
    requires
        started(ActionView::Step(step), request, stamp, before, after, taken),
    ensures
        after == before,
        taken == step,
{
}

/// A session ends an hour after its last visit, and not before; it is kept as it is until then.
pub proof fn law_session_ends_after_an_hour(store: StoreView, now: u64, id: Seq<char>)
    requires
        store.sessions.dom().contains(id) ==> now >= store.sessions[id].last_seen,
    ensures
        without_expired(store, now).sessions.dom().contains(id) <==> store.sessions.dom().contains(
            id,
        ) && now - store.sessions[id].last_seen < 3600000,
        without_expired(store, now).sessions.dom().contains(id) ==> without_expired(
            store,
            now,
        ).sessions[id] == store.sessions[id],
        without_expired(store, now).seq == store.seq,
{
}

} // verus!
