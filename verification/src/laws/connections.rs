//! Connections: the servers behind them, what arrives and what is sent, and what a request is
//! answered by.

use crate::addr::ListenAddr;
use crate::cgi::CgiEnd;
use crate::client::{intake, oversized, AfterWrite, ClientView, IntakeView, Readiness};
use crate::config::{route_index, ServerView};
use crate::dispatch::{
    ended_reply, grouped, named_server, reply_file, reply_response, resolved, verdict,
    with_addresses, with_server, ListenerView, VerdictView,
};
use crate::handler::action;
use crate::http::{announced, announced_host, parse, ParseView, RequestView};
use crate::params::host_name;
use crate::reply::ReplyView;
use crate::server::{input_left, next_for, HttpServerView, NextView};
use crate::text::{lower, same_ignoring_case, shown_text};
use crate::util::normal_path;
use vstd::prelude::*;

verus! {

/// The reply is an error of the given status and message.
pub open spec fn is_error(reply: ReplyView, code: u16, text: Seq<char>) -> bool {
    reply == ReplyView::Error { status: code, message: text, allow: None }
}

// Listeners

/// The servers of a listener come in the order of the configuration.
pub open spec fn in_configured_order(listeners: Seq<ListenerView>, n: int) -> bool {
    forall|k: int, i: int|
        #![trigger listeners[k].server_indices[i]]
        0 <= k < listeners.len() && 0 <= i < listeners[k].server_indices.len()
            ==> listeners[k].server_indices[i] < n && (i > 0 ==> listeners[k].server_indices[i - 1]
            <= listeners[k].server_indices[i])
}

/// A server that is added to an address stands behind the others there; a new address stands behind
/// the other listeners; and all others stay as and where they are.
pub proof fn law_server_is_added_behind_the_others(
    listeners: Seq<ListenerView>,
    addr: ListenAddr,
    index: usize,
    k: int,
)
    requires
        0 <= k <= listeners.len(),
        forall|j: int| 0 <= j < k ==> (#[trigger] listeners[j]).addr != addr,
        k < listeners.len() ==> listeners[k].addr == addr,
    ensures
        ({
            let after = with_server(listeners, addr, index);
            &&& k < listeners.len() ==> after.len() == listeners.len() && after[k].addr == addr
                && after[k].server_indices == listeners[k].server_indices.push(index)
            &&& k == listeners.len() ==> after.len() == k + 1 && after[k].addr == addr
                && after[k].server_indices == seq![index]
            &&& forall|j: int|
                0 <= j < listeners.len() && j != k ==> #[trigger] after[j] == listeners[j]
        }),
    decreases listeners.len(),
{
    if listeners.len() > 0 && k > 0 {
        assert(listeners[0].addr != addr);
        let rest = listeners.skip(1);
        assert forall|j: int| 0 <= j < k - 1 implies (#[trigger] rest[j]).addr != addr by {
            assert(rest[j] == listeners[j + 1]);
        }
        law_server_is_added_behind_the_others(rest, addr, index, k - 1);
        let after = with_server(listeners, addr, index);
        let later = with_server(rest, addr, index);
        assert forall|j: int| 0 <= j < listeners.len() && j != k implies #[trigger] after[j]
            == listeners[j] by {
            if j > 0 {
                assert(after[j] == later[j - 1]);
                assert(rest[j - 1] == listeners[j]);
            }
        }
    }
}

proof fn lemma_order_kept(
    listeners: Seq<ListenerView>,
    addrs: Seq<ListenAddr>,
    index: usize,
    n: int,
)
    requires
        0 <= n <= addrs.len(),
        in_configured_order(listeners, index + 1),
    ensures
        in_configured_order(with_addresses(listeners, addrs, index, n), index + 1),
    decreases n,
{
    if n > 0 {
        lemma_order_kept(listeners, addrs, index, n - 1);
        let before = with_addresses(listeners, addrs, index, n - 1);
        let addr = addrs[n - 1];
        let at = lemma_position(before, addr, 0);
        law_server_is_added_behind_the_others(before, addr, index, at);
        let after = with_server(before, addr, index);
        assert forall|k: int, i: int|
            #![trigger after[k].server_indices[i]]
            0 <= k < after.len() && 0 <= i < after[k].server_indices.len() implies after[k].server_indices[i]
            < index + 1 && (i > 0 ==> after[k].server_indices[i - 1] <= after[k].server_indices[i]) by {
            if k != at {
                assert(after[k] == before[k]);
                assert(before[k].server_indices[i] < index + 1);
            } else if k < before.len() {
                let old = before[k].server_indices;
                if i < old.len() {
                    assert(old[i] < index + 1);
                } else if i > 0 {
                    assert(old[i - 1] < index + 1);
                }
            }
        }
    }
}

proof fn lemma_position(listeners: Seq<ListenerView>, addr: ListenAddr, from: int) -> (k: int)
    requires
        0 <= from <= listeners.len(),
        forall|j: int| 0 <= j < from ==> (#[trigger] listeners[j]).addr != addr,
    ensures
        from <= k <= listeners.len(),
        forall|j: int| 0 <= j < k ==> (#[trigger] listeners[j]).addr != addr,
        k < listeners.len() ==> listeners[k].addr == addr,
    decreases listeners.len() - from,
{
    if from == listeners.len() || listeners[from].addr == addr {
        from
    } else {
        lemma_position(listeners, addr, from + 1)
    }
}

/// The servers of every listener come in the order of the configuration, so that the first one,
/// which answers where no name fits, is the one that was configured first.
pub proof fn law_servers_keep_their_order(configs: Seq<ServerView>, n: int)
    requires
        0 <= n <= configs.len() <= usize::MAX,
    ensures
        in_configured_order(grouped(configs, n), n),
    decreases n,
{
    if n > 0 {
        law_servers_keep_their_order(configs, n - 1);
        let before = grouped(configs, n - 1);
        assert forall|k: int, i: int|
            #![trigger before[k].server_indices[i]]
            0 <= k < before.len() && 0 <= i < before[k].server_indices.len() implies before[k].server_indices[i]
            < n && (i > 0 ==> before[k].server_indices[i - 1] <= before[k].server_indices[i]) by {}
        let listens = configs[n - 1].listens;
        lemma_order_kept(before, listens, (n - 1) as usize, listens.len() as int);
    }
}

// The server for a request

/// One of the server's names is the host, in any case.
pub open spec fn has_name(server: ServerView, host: Seq<char>) -> bool {
    exists|k: int|
        0 <= k < server.server_names.len() && same_ignoring_case(
            #[trigger] server.server_names[k],
            host,
        )
}

proof fn lemma_named(configs: Seq<ServerView>, indices: Seq<usize>, host: Seq<char>, k: int)
    requires
        0 <= k < indices.len(),
        forall|j: int| 0 <= j <= k ==> (#[trigger] indices[j]) < configs.len(),
        forall|j: int|
            0 <= j < k ==> !has_name(configs[(#[trigger] indices[j]) as int], host),
        has_name(configs[indices[k] as int], host),
    ensures
        named_server(configs, indices, host) == Some(Some(indices[k])),
    decreases indices.len(),
{
    assert(indices[0] < configs.len());
    if k > 0 {
        assert(!has_name(configs[indices[0] as int], host));
        let rest = indices.skip(1);
        assert forall|j: int| 0 <= j <= k - 1 implies (#[trigger] rest[j]) < configs.len() by {
            assert(rest[j] == indices[j + 1]);
        }
        assert forall|j: int| 0 <= j < k - 1 implies !has_name(
            configs[(#[trigger] rest[j]) as int],
            host,
        ) by {
            assert(rest[j] == indices[j + 1]);
        }
        lemma_named(configs, rest, host, k - 1);
    }
}

proof fn lemma_unnamed(configs: Seq<ServerView>, indices: Seq<usize>, host: Seq<char>)
    requires
        forall|j: int| 0 <= j < indices.len() ==> (#[trigger] indices[j]) < configs.len(),
        forall|j: int|
            0 <= j < indices.len() ==> !has_name(configs[(#[trigger] indices[j]) as int], host),
    ensures
        named_server(configs, indices, host) == Some(None::<usize>),
    decreases indices.len(),
{
    if indices.len() > 0 {
        assert(indices[0] < configs.len());
        assert(!has_name(configs[indices[0] as int], host));
        let rest = indices.skip(1);
        assert forall|j: int| 0 <= j < rest.len() implies (#[trigger] rest[j]) < configs.len() by {
            assert(rest[j] == indices[j + 1]);
        }
        assert forall|j: int| 0 <= j < rest.len() implies !has_name(
            configs[(#[trigger] rest[j]) as int],
            host,
        ) by {
            assert(rest[j] == indices[j + 1]);
        }
        lemma_unnamed(configs, rest, host);
    }
}

/// The first server of a listener that has the host among its names is the one for a request; where
/// none has it, the first of all is.
pub proof fn law_first_named_server_answers(
    configs: Seq<ServerView>,
    indices: Seq<usize>,
    header: Seq<char>,
    k: int,
)
    requires
        forall|j: int| 0 <= j < indices.len() ==> (#[trigger] indices[j]) < configs.len(),
        0 <= k < indices.len(),
    ensures
        (forall|j: int|
            0 <= j < k ==> !has_name(
                configs[(#[trigger] indices[j]) as int],
                lower(host_name(header)),
            )) && has_name(configs[indices[k] as int], lower(host_name(header))) ==> resolved(
            configs,
            indices,
            header,
        ) == Some(indices[k]),
        (forall|j: int|
            0 <= j < indices.len() ==> !has_name(
                configs[(#[trigger] indices[j]) as int],
                lower(host_name(header)),
            )) ==> resolved(configs, indices, header) == Some(indices[0]),
{
    let host = lower(host_name(header));
    if (forall|j: int| 0 <= j < k ==> !has_name(configs[(#[trigger] indices[j]) as int], host))
        && has_name(configs[indices[k] as int], host) {
        lemma_named(configs, indices, host, k);
    }
    if forall|j: int|
        0 <= j < indices.len() ==> !has_name(configs[(#[trigger] indices[j]) as int], host) {
        lemma_unnamed(configs, indices, host);
    }
}

/// A request is worked on by the location of its server that serves its path, with the path in its
/// normal form and all else as it was sent; a body above the server's limit is refused with 413, a
/// path without a normal form with 400, and one that no location serves with 404. The connection is
/// kept unless the request asks otherwise or its path is refused.
pub proof fn law_request_is_dispatched(
    configs: Seq<ServerView>,
    indices: Seq<usize>,
    request: RequestView,
    server: usize,
)
    requires
        resolved(configs, indices, request.host()) == Some(server),
        server < configs.len(),
    ensures
        ({
            let config = configs[server as int];
            let fits = request.body.len() <= config.client_max_body_size;
            let path = normal_path(request.path);
            let found = verdict(configs, indices, request);
            &&& !fits ==> (found matches VerdictView::Reply { server: by, reply, keep_alive } && by
                == server && is_error(reply, 413, "request body exceeds configured limit"@)
                && keep_alive == !request.wants_close())
            &&& fits && path is Err ==> (found matches VerdictView::Reply {
                server: by,
                reply,
                keep_alive,
            } && by == server && is_error(reply, 400, path->Err_0) && !keep_alive)
            &&& fits && path is Ok && route_index(config.routes, path->Ok_0) is None ==> (
            found matches VerdictView::Reply { server: by, reply, keep_alive } && by == server
                && is_error(reply, 404, "no matching route"@) && keep_alive
                == !request.wants_close())
            &&& fits && path is Ok && route_index(config.routes, path->Ok_0) is Some ==> (
            found matches VerdictView::Work {
                server: by,
                route,
                request: given,
                action: wanted,
                keep_alive,
            } && by == server && Some(route) == route_index(config.routes, path->Ok_0) && given.path
                == path->Ok_0 && given.method == request.method && given.target == request.target
                && given.query == request.query && given.version == request.version && given.headers
                == request.headers && given.body == request.body && wanted == action(
                config.routes[route],
                given,
            ) && keep_alive == !request.wants_close())
        }),
{
}

/// A script that ran out of time is answered with 504; one that failed, or whose output stands for
/// no response, with 502; and any other with the response that its output stands for.
pub proof fn law_script_is_answered_with(output: Seq<u8>)
    ensures
        is_error(ended_reply(CgiEnd::TimedOut, output), 504, "CGI execution timed out"@),
        is_error(
            ended_reply(CgiEnd::Failed, output),
            502,
            "CGI process exited unsuccessfully"@,
        ),
        match crate::cgi::output_parts(output) {
            None => is_error(
                ended_reply(CgiEnd::Finished, output),
                502,
                "CGI did not emit a header/body separator"@,
            ),
            Some((head, body)) => match crate::cgi::output_response(shown_text(head), body) {
                Ok(response) => ended_reply(CgiEnd::Finished, output) == ReplyView::Page(response),
                Err(m) => is_error(ended_reply(CgiEnd::Finished, output), 502, m),
            },
        },
{
}

/// A reply is made into a response with the pages of the server that it comes from.
pub proof fn law_reply_goes_by_its_server(
    configs: Seq<ServerView>,
    server: usize,
    reply: ReplyView,
    content: Option<Seq<u8>>,
)
    ensures
        server < configs.len() ==> reply_response(configs, server, reply, content)
            == reply.response(configs[server as int], content),
        server < configs.len() ==> reply_file(configs, server, reply) == reply.page(
            configs[server as int],
        ),
        server >= configs.len() ==> reply_file(configs, server, reply) is None,
        reply_response(configs, server, reply, content).status == reply.status(),
        reply matches ReplyView::Page(response) ==> reply_response(
            configs,
            server,
            reply,
            content,
        ) == response,
{
}

// What arrives and what is sent

/// A new connection has nothing to send, waits for input, and ends after fifteen seconds.
pub proof fn law_new_connection(listener: usize, now: u64)
    ensures
        ({
            let c = ClientView::fresh(listener, now);
            &&& c.listener == listener
            &&& c.input.len() == 0 && c.output.len() == 0
            &&& !c.close_after_write && !c.processing && !c.peer_closed
            &&& c.interest().read && !c.interest().write && c.interest().peer_close
            &&& forall|later: u64|
                #![trigger c.expired(later)]
                later >= now ==> (c.expired(later) <==> later - now >= 15000)
        }),
{
}

/// A connection waits to be written exactly where something is to be sent, and to be read exactly
/// where nothing is and no script works for it.
pub proof fn law_what_a_connection_waits_for(c: ClientView)
    ensures
        c.interest().write <==> c.output.len() > 0,
        c.interest().read <==> c.output.len() == 0 && !c.processing,
        c.interest().peer_close <==> !c.peer_closed,
{
}

/// A connection that has failed or is closed on both sides ends; else it rests while a script works
/// for it; else what is to be sent is sent where that can be done, and where not, or where there is
/// nothing, what has arrived is read.
pub proof fn law_reaction_of_a_connection(c: ClientView, ready: Readiness)
    ensures
        c.reaction(ready) is Close <==> ready.failed || ready.hung_up,
        c.reaction(ready) is Write <==> !ready.failed && !ready.hung_up && !c.processing
            && c.output.len() > 0 && ready.writable,
        c.reaction(ready) is Read <==> !ready.failed && !ready.hung_up && !c.processing && !(
        c.output.len() > 0 && ready.writable) && ready.readable,
{
}

/// What arrives is added to the end of what has arrived; it changes nothing else but the time of
/// the last activity.
pub proof fn law_input_is_added_at_the_end(c: ClientView, bytes: Seq<u8>, now: u64)
    ensures
        c.received(bytes, now).input == c.input + bytes,
        c.received(bytes, now).output == c.output,
        c.received(bytes, now).last_active == now,
        c.received(bytes, now).close_after_write == c.close_after_write,
        c.received(bytes, now).processing == c.processing,
        c.received(bytes, now).peer_closed == c.peer_closed,
        c.received(bytes, now).listener == c.listener,
{
}

/// A response that is queued is sent as it is; the connection ends after it exactly where it is not
/// to be kept, and what has arrived stays.
pub proof fn law_queued_response(c: ClientView, bytes: Seq<u8>, keep_alive: bool, now: u64)
    ensures
        ({
            let q = c.queued(bytes, keep_alive, now);
            &&& q.output == bytes && q.input == c.input && q.last_active == now
            &&& q.after_write(bytes.len() as int) == (if !keep_alive {
                AfterWrite::Close
            } else {
                AfterWrite::Ready { buffered: c.input.len() > 0 }
            })
            &&& q.processing == c.processing && q.peer_closed == c.peer_closed && q.listener
                == c.listener
        }),
{
}

/// What was sent is taken off the front of what is to be sent.
pub proof fn law_sent_output(c: ClientView, n: int, now: u64)
    requires
        0 <= n <= c.output.len(),
    ensures
        c.sent(n, now).output.len() == c.output.len() - n,
        forall|i: int| 0 <= i < c.output.len() - n ==> #[trigger] c.sent(n, now).output[i]
            == c.output[n + i],
        c.sent(n, now).last_active == now,
        c.sent(n, now).input == c.input,
        n < c.output.len() ==> c.sent(n, now).close_after_write == c.close_after_write,
        c.after_write(n) is More <==> n < c.output.len(),
        c.after_write(n) is Close <==> n == c.output.len() && c.close_after_write,
        n == c.output.len() && !c.close_after_write ==> c.after_write(n) == (AfterWrite::Ready {
            buffered: c.input.len() > 0,
        }),
{
}

/// A connection ends after fifteen seconds without activity, but not while a script works for it.
pub proof fn law_idle_connection_expires(c: ClientView, now: u64)
    requires
        now >= c.last_active,
    ensures
        c.expired(now) <==> !c.processing && now - c.last_active >= 15000,
{
}

/// What has arrived is a request as soon as one is complete; until then it is waited for. What can
/// be no request is refused with 400 by the first server of the listener, and a body that is known
/// to be too long with 413 by the server that it is for.
pub proof fn law_what_has_arrived(input: Seq<u8>, configs: Seq<ServerView>, indices: Seq<usize>)
    ensures
        ({
            let found = intake(input, configs, indices);
            let long = oversized(input, configs, indices);
            &&& parse(input, 33554432) matches ParseView::Complete { request, consumed } ==> found
                == (IntakeView::Request { request, consumed })
            &&& parse(input, 33554432) is NeedMore && long is None ==> found is Wait
            &&& parse(input, 33554432) is Error && long is None ==> (
            found matches IntakeView::Refuse { server, reply } && is_error(
                reply,
                400,
                parse(input, 33554432)->Error_0,
            ) && server
                == if indices.len() > 0 {
                indices[0]
            } else {
                0
            })
            &&& !(parse(input, 33554432) is Complete) && long is Some ==> (
            found matches IntakeView::Refuse { server, reply } && is_error(
                reply,
                413,
                "request body exceeds configured limit"@,
            ) && server
                == long->0)
        }),
{
}

/// A body is known to be too long where the head has arrived and announces more than the server
/// that the request is for takes.
pub proof fn law_when_a_body_is_too_long(
    input: Seq<u8>,
    configs: Seq<ServerView>,
    indices: Seq<usize>,
    server: usize,
)
    ensures
        oversized(input, configs, indices) == Some(server) <==> (announced_host(input) is Some
            && resolved(configs, indices, announced_host(input)->0) == Some(server) && server
            < configs.len() && announced(input) > configs[server as int].client_max_body_size),
{
}

/// What a connection's input leads to: it waits until there is something to answer, a refusal ends
/// the connection after it is sent, and a request is dispatched; a request without a server ends
/// the connection. Only what a request takes is taken off the input.
pub proof fn law_what_input_leads_to(input: Seq<u8>, configs: Seq<ServerView>, indices: Seq<usize>)
    ensures
        match intake(input, configs, indices) {
            IntakeView::Wait => next_for(configs, indices, input) is Wait && input_left(
                configs,
                indices,
                input,
            ) == input,
            IntakeView::Refuse { server, reply } => next_for(configs, indices, input) == (
            NextView::Reply { server, reply, keep_alive: false }) && input_left(
                configs,
                indices,
                input,
            ) == input,
            IntakeView::Request { request, consumed } => {
                &&& input_left(configs, indices, input) == input.skip(consumed)
                &&& match verdict(configs, indices, request) {
                    VerdictView::Drop => next_for(configs, indices, input) is Close,
                    VerdictView::Reply { server, reply, keep_alive } => next_for(
                        configs,
                        indices,
                        input,
                    ) == (NextView::Reply { server, reply, keep_alive }),
                    VerdictView::Work { server, route, request, action, keep_alive } => next_for(
                        configs,
                        indices,
                        input,
                    ) == (NextView::Work { server, route, request, action, keep_alive }),
                }
            },
        },
{
}

/// The servers for a connection are those of the listener that it came through, and its port is
/// that of the listener's address.
pub proof fn law_connection_belongs_to_its_listener(s: HttpServerView, token: u64)
    requires
        s.clients.dom().contains(token),
        s.clients[token].listener < s.listeners.len(),
    ensures
        ({
            let l = s.listeners[s.clients[token].listener as int];
            &&& s.indices(token) == l.server_indices
            &&& l.addr matches ListenAddr::V4 { port, .. } ==> s.port(token) == port
            &&& l.addr matches ListenAddr::V6 { ipv6_port, .. } ==> s.port(token) == ipv6_port
        }),
{
}

/// When a script has ended, its connection is free again and active at that time, the script is
/// gone, and nothing else changes.
pub proof fn law_ended_script_frees_its_connection(
    s: HttpServerView,
    token: u64,
    now: u64,
    other: u64,
)
    requires
        s.clients.dom().contains(token),
        other != token,
    ensures
        ({
            let after = s.script_ended(token, now);
            &&& !after.tasks.dom().contains(token)
            &&& after.clients.dom().contains(token) && !after.clients[token].processing
            &&& after.clients[token].last_active == now
            &&& after.clients[token].input == s.clients[token].input
            &&& after.clients[token].output == s.clients[token].output
            &&& after.clients.dom().contains(other) == s.clients.dom().contains(other)
            &&& after.clients[other] == s.clients[other]
            &&& after.tasks.dom().contains(other) == s.tasks.dom().contains(other)
            &&& after.tasks[other] == s.tasks[other]
            &&& after.sessions == s.sessions && after.configs == s.configs && after.listeners
                == s.listeners
        }),
{
}

} // verus!
