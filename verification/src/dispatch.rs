//! The choice of a server for a request, and what a request is answered.

use crate::addr::ListenAddr;
use crate::cgi::{
    cgi_error_response, failure_page, output_parts, output_response, parse_cgi_output, CgiEnd,
};
use crate::config::{
    config_servers, law_absolute_path_has_a_location, law_configured_servers, names_clash,
    root_index, route_index, server_views, sound_server, ServerConfig, ServerView,
};
use crate::handler::{
    action, build_action, law_first_step_stays_below, started, stays_below, ActionView, Step,
};
use crate::http::{Request, RequestView};
use crate::params::{host_name, host_without_port};
use crate::reply::{failure, opt_bytes, Reply, ReplyView};
use crate::response::{plain, Response, ResponseView};
use crate::session::{SessionStore, Stamp};
use crate::text::{
    lemma_lower_twice, lower, lower_slice, matches_ignoring_case, same_ignoring_case, shown_text,
    strings, to_chars, to_text,
};
use crate::util::{
    has_parent, law_normal_path_is_safe, law_parent_paths_are_refused, normal_path,
    normalize_url_path, percent_text, string_text,
};
use vstd::prelude::*;
use vstd::utf8::encode_utf8;

verus! {

// Listeners

/// A listener: its address, and the servers that share it.
#[derive(Debug)]
pub struct Listener {
    pub addr: ListenAddr,
    pub server_indices: Vec<usize>,
}

#[verifier::ext_equal]
pub struct ListenerView {
    pub addr: ListenAddr,
    pub server_indices: Seq<usize>,
}

impl View for Listener {
    type V = ListenerView;

    open spec fn view(&self) -> ListenerView {
        ListenerView { addr: self.addr, server_indices: self.server_indices@ }
    }
}

pub open spec fn listener_views(listeners: Seq<Listener>) -> Seq<ListenerView> {
    listeners.map_values(|l: Listener| l@)
}

/// The listeners with one more server on an address: on the listener with that address, or on a
/// new one at the end.
pub open spec fn with_server(
    listeners: Seq<ListenerView>,
    addr: ListenAddr,
    index: usize,
) -> Seq<ListenerView>
    decreases listeners.len(),
{
    if listeners.len() == 0 {
        seq![ListenerView { addr, server_indices: seq![index] }]
    } else if listeners[0].addr == addr {
        listeners.update(
            0,
            ListenerView { addr, server_indices: listeners[0].server_indices.push(index) },
        )
    } else {
        seq![listeners[0]] + with_server(listeners.skip(1), addr, index)
    }
}

/// The listeners with a server on the first `n` of its addresses.
pub open spec fn with_addresses(
    listeners: Seq<ListenerView>,
    addrs: Seq<ListenAddr>,
    index: usize,
    n: int,
) -> Seq<ListenerView>
    decreases n,
{
    if n <= 0 {
        listeners
    } else {
        with_server(with_addresses(listeners, addrs, index, n - 1), addrs[n - 1], index)
    }
}

/// The listeners of the first `n` servers: one for each address, with the servers that name it, in
/// their order.
pub open spec fn grouped(configs: Seq<ServerView>, n: int) -> Seq<ListenerView>
    decreases n,
{
    if n <= 0 {
        Seq::empty()
    } else {
        let listens = configs[n - 1].listens;
        with_addresses(grouped(configs, n - 1), listens, (n - 1) as usize, listens.len() as int)
    }
}

proof fn lemma_with_server(
    listeners: Seq<ListenerView>,
    addr: ListenAddr,
    index: usize,
    k: int,
)
    requires
        0 <= k <= listeners.len(),
        forall|j: int| 0 <= j < k ==> (#[trigger] listeners[j]).addr != addr,
        k < listeners.len() ==> listeners[k].addr == addr,
    ensures
        with_server(listeners, addr, index) == if k < listeners.len() {
            listeners.update(
                k,
                ListenerView { addr, server_indices: listeners[k].server_indices.push(index) },
            )
        } else {
            listeners.push(ListenerView { addr, server_indices: seq![index] })
        },
    decreases listeners.len(),
{
    if listeners.len() > 0 && k > 0 {
        let rest = listeners.skip(1);
        assert forall|j: int| 0 <= j < k - 1 implies (#[trigger] rest[j]).addr != addr by {
            assert(rest[j] == listeners[j + 1]);
        }
        lemma_with_server(rest, addr, index, k - 1);
        assert(listeners[0].addr != addr);
        if k < listeners.len() {
            assert(with_server(listeners, addr, index) =~= listeners.update(
                k,
                ListenerView { addr, server_indices: listeners[k].server_indices.push(index) },
            ));
        } else {
            assert(with_server(listeners, addr, index) =~= listeners.push(
                ListenerView { addr, server_indices: seq![index] },
            ));
        }
    } else if listeners.len() == 0 {
        assert(with_server(listeners, addr, index) =~= listeners.push(
            ListenerView { addr, server_indices: seq![index] },
        ));
    }
}

fn add_server(listeners: &mut Vec<Listener>, addr: ListenAddr, index: usize)
    ensures
        listener_views(final(listeners)@) == with_server(
            listener_views(old(listeners)@),
            addr,
            index,
        ),
{
    let ghost before = listener_views(listeners@);
    let mut k: usize = 0;
    while k < listeners.len()
        invariant
            0 <= k <= listeners@.len(),
            before == listener_views(listeners@),
            before == listener_views(old(listeners)@),
            forall|j: int| 0 <= j < k ==> (#[trigger] before[j]).addr != addr,
        decreases listeners.len() - k,
    {
        assert(before[k as int] == listeners@[k as int]@);
        if listeners[k].addr == addr {
            proof {
                lemma_with_server(before, addr, index, k as int);
            }
            let mut indices = listeners[k].server_indices.clone();
            indices.push(index);
            let listener = Listener { addr, server_indices: indices };
            listeners.set(k, listener);
            assert(listener_views(listeners@) =~= before.update(k as int, listener@));
            return ;
        }
        k = k + 1;
    }
    proof {
        lemma_with_server(before, addr, index, k as int);
    }
    let mut indices: Vec<usize> = Vec::new();
    indices.push(index);
    let listener = Listener { addr, server_indices: indices };
    assert(listener@ =~= (ListenerView { addr, server_indices: seq![index] }));
    listeners.push(listener);
    assert(listener_views(listeners@) =~= before.push(listener@));
}

/// The listeners that the servers ask for.
pub fn group_listeners(configs: &[ServerConfig]) -> (r: Vec<Listener>)
    ensures
        listener_views(r@) == grouped(server_views(configs@), configs@.len() as int),
{
    let ghost views = server_views(configs@);
    let mut r: Vec<Listener> = Vec::new();
    assert(listener_views(r@) =~= grouped(views, 0));
    let mut i: usize = 0;
    while i < configs.len()
        invariant
            0 <= i <= configs@.len(),
            views == server_views(configs@),
            listener_views(r@) == grouped(views, i as int),
        decreases configs.len() - i,
    {
        assert(views[i as int] == configs@[i as int]@);
        let mut j: usize = 0;
        let ghost start = grouped(views, i as int);
        while j < configs[i].listens.len()
            invariant
                0 <= i < configs@.len(),
                0 <= j <= configs@[i as int].listens@.len(),
                listener_views(r@) == with_addresses(
                    start,
                    configs@[i as int].listens@,
                    i,
                    j as int,
                ),
            decreases configs[i as int].listens.len() - j,
        {
            add_server(&mut r, configs[i].listens[j], i);
            j = j + 1;
        }
        i = i + 1;
    }
    r
}

// Virtual hosts

/// One of the server's names is the host, in any case of ASCII letters.
pub open spec fn answers_to(server: ServerView, host: Seq<char>) -> bool {
    exists|k: int|
        0 <= k < server.server_names.len() && same_ignoring_case(
            #[trigger] server.server_names[k],
            host,
        )
}

/// The first of the servers that answers to the host; none where a server before it is unknown.
pub open spec fn named_server(
    configs: Seq<ServerView>,
    indices: Seq<usize>,
    host: Seq<char>,
) -> Option<Option<usize>>
    decreases indices.len(),
{
    if indices.len() == 0 {
        Some(None)
    } else if indices[0] >= configs.len() {
        None
    } else if answers_to(configs[indices[0] as int], host) {
        Some(Some(indices[0]))
    } else {
        named_server(configs, indices.skip(1), host)
    }
}

/// The first of the servers of a listener.
pub open spec fn first_server(indices: Seq<usize>) -> Option<usize> {
    if indices.len() > 0 {
        Some(indices[0])
    } else {
        None
    }
}

/// The server for a request with the given Host header: the first one that has the name, or else
/// the first one of the listener.
pub open spec fn resolved(
    configs: Seq<ServerView>,
    indices: Seq<usize>,
    host_header: Seq<char>,
) -> Option<usize> {
    match named_server(configs, indices, lower(host_name(host_header))) {
        None => None,
        Some(Some(index)) => Some(index),
        Some(None) => first_server(indices),
    }
}

fn has_host(server: &ServerConfig, host: &str) -> (r: bool)
    ensures
        r == answers_to(server@, host@),
{
    let ghost names = server@.server_names;
    let mut k: usize = 0;
    while k < server.server_names.len()
        invariant
            0 <= k <= server.server_names@.len(),
            names == strings(server.server_names@),
            names == server@.server_names,
            forall|j: int| 0 <= j < k ==> !same_ignoring_case(#[trigger] names[j], host@),
        decreases server.server_names.len() - k,
    {
        assert(names[k as int] == server.server_names@[k as int]@);
        if matches_ignoring_case(to_chars(server.server_names[k].as_str()).as_slice(), host) {
            return true;
        }
        k = k + 1;
    }
    false
}

/// The server for a request with the given Host header, among those of a listener.
pub fn resolve_server_for_request(
    configs: &[ServerConfig],
    indices: &[usize],
    host_header: &str,
) -> (r: Option<usize>)
    ensures
        r == resolved(server_views(configs@), indices@, host_header@),
{
    let ghost views = server_views(configs@);
    let header = to_chars(host_header);
    let host = to_text(lower_slice(host_without_port(header.as_slice())).as_slice());
    assert(indices@.skip(0) =~= indices@);
    let mut i: usize = 0;
    while i < indices.len()
        invariant
            0 <= i <= indices@.len(),
            views == server_views(configs@),
            host@ == lower(host_name(host_header@)),
            named_server(views, indices@, host@) == named_server(
                views,
                indices@.skip(i as int),
                host@,
            ),
        decreases indices.len() - i,
    {
        assert(indices@.skip(i as int).skip(1) =~= indices@.skip(i + 1));
        let index: usize = indices[i];
        if index >= configs.len() {
            return None;
        }
        assert(views[index as int] == configs@[index as int]@);
        if has_host(&configs[index], host.as_str()) {
            return Some(index);
        }
        i = i + 1;
    }
    default_server_for_client(indices)
}

/// The first of the servers of a listener.
pub fn default_server_for_client(indices: &[usize]) -> (r: Option<usize>)
    ensures
        r == first_server(indices@),
{
    if indices.len() > 0 {
        Some(indices[0])
    } else {
        None
    }
}

// Requests

/// What is to be done with a complete request.
pub enum VerdictView {
    /// It is answered by the server with the given index, and the connection is kept or not.
    Reply { server: usize, reply: ReplyView, keep_alive: bool },
    /// The given location of the server is to work on it.
    Work { server: usize, route: int, request: RequestView, action: ActionView, keep_alive: bool },
    /// No server is there for it.
    Drop,
}

/// What is to be done with a complete request that the listener with the given servers received.
pub open spec fn verdict(
    configs: Seq<ServerView>,
    indices: Seq<usize>,
    request: RequestView,
) -> VerdictView {
    match resolved(configs, indices, request.host()) {
        None => VerdictView::Drop,
        Some(index) => {
            let server = configs[index as int];
            let keep_alive = !request.wants_close();
            if index >= configs.len() {
                VerdictView::Drop
            } else if request.body.len() > server.client_max_body_size {
                VerdictView::Reply {
                    server: index,
                    reply: failure(413, "request body exceeds configured limit"@),
                    keep_alive,
                }
            } else {
                match normal_path(request.path) {
                    Err(m) => VerdictView::Reply {
                        server: index,
                        reply: failure(400, m),
                        keep_alive: false,
                    },
                    Ok(path) => {
                        let request = RequestView { path, ..request };
                        match route_index(server.routes, path) {
                            None => VerdictView::Reply {
                                server: index,
                                reply: failure(404, "no matching route"@),
                                keep_alive,
                            },
                            Some(i) => VerdictView::Work {
                                server: index,
                                route: i,
                                request,
                                action: action(server.routes[i], request),
                                keep_alive,
                            },
                        }
                    },
                }
            }
        },
    }
}

/// What is to be done with a complete request.
pub enum Verdict {
    /// It is answered by the server with the given index, and the connection is kept or not.
    Reply { server_index: usize, reply: Reply, keep_alive: bool },
    /// The location is to work on it.
    Work {
        server_index: usize,
        route_index: usize,
        request: Request,
        step: Step,
        keep_alive: bool,
    },
    /// No server is there for it.
    Drop,
}

/// Decides what is to be done with a complete request that the listener with the given servers
/// received, and starts on it.
pub fn begin_request(
    configs: &[ServerConfig],
    sessions: &mut SessionStore,
    indices: &[usize],
    request: Request,
    stamp: Stamp,
) -> (r: Verdict)
    ensures
        match (r, verdict(server_views(configs@), indices@, request@)) {
            (Verdict::Drop, VerdictView::Drop) => final(sessions)@ == old(sessions)@,
            (
                Verdict::Reply { server_index, reply, keep_alive },
                VerdictView::Reply { server, reply: expected, keep_alive: keeps },
            ) => server_index == server && server_index < configs@.len() && reply@ == expected
                && keep_alive == keeps && final(sessions)@ == old(sessions)@,
            (
                Verdict::Work { server_index, route_index, request: kept, step, keep_alive },
                VerdictView::Work { server, route, request: normal, action, keep_alive: keeps },
            ) => server_index == server && server_index < configs@.len() && route_index == route
                && route_index < configs@[server as int].routes@.len() && kept@ == normal
                && keep_alive == keeps && started(
                action,
                normal,
                stamp,
                old(sessions)@,
                final(sessions)@,
                step@,
            ),
            _ => false,
        },
{
    let ghost views = server_views(configs@);
    let server_index: usize = match resolve_server_for_request(configs, indices, request.host()) {
        Some(index) => index,
        None => {
            return Verdict::Drop;
        },
    };
    if server_index >= configs.len() {
        return Verdict::Drop;
    }
    assert(views[server_index as int] == configs@[server_index as int]@);
    let server = &configs[server_index];
    let keep_alive = !request.wants_close();
    if request.body.len() > server.client_max_body_size {
        return Verdict::Reply {
            server_index,
            reply: Reply::error(413, "request body exceeds configured limit"),
            keep_alive,
        };
    }
    let path = match normalize_url_path(request.path.as_str()) {
        Ok(path) => path,
        Err(m) => {
            return Verdict::Reply {
                server_index,
                reply: Reply::error(400, m.as_str()),
                keep_alive: false,
            };
        },
    };
    let mut request = request;
    request.path = path;
    let index: usize = match server.route_index_for(request.path.as_str()) {
        Some(index) => index,
        None => {
            return Verdict::Reply {
                server_index,
                reply: Reply::error(404, "no matching route"),
                keep_alive,
            };
        },
    };
    let route = &server.routes[index];
    assert(server@.routes[index as int] == route@);
    let step = build_action(route, &request, sessions, stamp);
    Verdict::Work { server_index, route_index: index, request, step, keep_alive }
}

// Replies

/// The file that a reply of the server with the given index needs.
pub open spec fn reply_file(configs: Seq<ServerView>, index: usize, reply: ReplyView) -> Option<
    Seq<char>,
> {
    if index < configs.len() {
        reply.page(configs[index as int])
    } else {
        None
    }
}

/// The response for a reply of the server with the given index, where `content` is what could be
/// read of the file that it needs.
pub open spec fn reply_response(
    configs: Seq<ServerView>,
    index: usize,
    reply: ReplyView,
    content: Option<Seq<u8>>,
) -> ResponseView {
    if index < configs.len() {
        reply.response(configs[index as int], content)
    } else {
        match reply {
            ReplyView::Page(response) => response,
            ReplyView::Error { status, message, .. } => plain(
                status,
                encode_utf8(failure_page(status, message)),
            ).with("Content-Type"@, "text/html; charset=utf-8"@),
        }
    }
}

/// The file that a reply of the server with the given index needs.
pub fn reply_page(configs: &[ServerConfig], server_index: usize, reply: &Reply) -> (r: Option<
    String,
>)
    ensures
        string_text(r) == reply_file(server_views(configs@), server_index, reply@),
{
    if server_index >= configs.len() {
        return None;
    }
    assert(server_views(configs@)[server_index as int] == configs@[server_index as int]@);
    reply.page_path(&configs[server_index])
}

/// The response for a reply of the server with the given index, where `content` is what could be
/// read of the file that it needs.
pub fn finish_reply(
    configs: &[ServerConfig],
    server_index: usize,
    reply: Reply,
    content: Option<Vec<u8>>,
) -> (r: Response)
    ensures
        r@ == reply_response(server_views(configs@), server_index, reply@, opt_bytes(content)),
{
    if server_index >= configs.len() {
        return match reply {
            Reply::Page(response) => response,
            Reply::Error { status, message, .. } => cgi_error_response(status, message.as_str()),
        };
    }
    assert(server_views(configs@)[server_index as int] == configs@[server_index as int]@);
    reply.into_response(&configs[server_index], content)
}

/// What a request is answered when its script could not be started.
pub fn cgi_not_started(reason: &str) -> (r: Reply)
    ensures
        r@ == failure(500, "cannot start CGI: "@ + reason@),
{
    let mut m = "cannot start CGI: ".to_owned();
    m.append(reason);
    Reply::error(500, m.as_str())
}

/// What a request is answered when its script has ended.
pub open spec fn ended_reply(end: CgiEnd, output: Seq<u8>) -> ReplyView {
    match end {
        CgiEnd::TimedOut => failure(504, "CGI execution timed out"@),
        CgiEnd::Failed => failure(502, "CGI process exited unsuccessfully"@),
        CgiEnd::Finished => match output_parts(output) {
            None => failure(502, "CGI did not emit a header/body separator"@),
            Some((head, body)) => match output_response(shown_text(head), body) {
                Ok(response) => ReplyView::Page(response),
                Err(m) => failure(502, m),
            },
        },
    }
}

/// What a request is answered when its script has ended with the given output.
pub fn cgi_reply(end: CgiEnd, output: &[u8]) -> (r: Reply)
    ensures
        r@ == ended_reply(end, output@),
{
    match end {
        CgiEnd::TimedOut => Reply::error(504, "CGI execution timed out"),
        CgiEnd::Failed => Reply::error(502, "CGI process exited unsuccessfully"),
        CgiEnd::Finished => match parse_cgi_output(output) {
            Ok(response) => Reply::Page(response),
            Err(m) => Reply::error(502, m.as_str()),
        },
    }
}

// What listeners and hosts keep

/// No two listeners have the same address.
pub open spec fn one_per_address(listeners: Seq<ListenerView>) -> bool {
    forall|i: int, j: int|
        0 <= i < j < listeners.len() ==> (#[trigger] listeners[i]).addr != (
        #[trigger] listeners[j]).addr
}

/// Every listener has a server.
pub open spec fn none_idle(listeners: Seq<ListenerView>) -> bool {
    forall|k: int| 0 <= k < listeners.len() ==> (#[trigger] listeners[k]).server_indices.len() > 0
}

/// A listener with the given address has the given server.
pub open spec fn listed(listeners: Seq<ListenerView>, addr: ListenAddr, index: usize) -> bool {
    exists|k: int|
        0 <= k < listeners.len() && (#[trigger] listeners[k]).addr == addr
            && listeners[k].server_indices.contains(index)
}

proof fn lemma_with_server_listed(listeners: Seq<ListenerView>, addr: ListenAddr, index: usize)
    requires
        one_per_address(listeners),
        none_idle(listeners),
    ensures
        one_per_address(with_server(listeners, addr, index)),
        none_idle(with_server(listeners, addr, index)),
        forall|a: ListenAddr, i: usize| #[trigger]
            listed(with_server(listeners, addr, index), a, i) <==> listed(listeners, a, i) || (a
                == addr && i == index),
{
    let after = with_server(listeners, addr, index);
    let k = if exists|k: int| 0 <= k < listeners.len() && (#[trigger] listeners[k]).addr == addr {
        choose|k: int| 0 <= k < listeners.len() && (#[trigger] listeners[k]).addr == addr
    } else {
        listeners.len() as int
    };
    lemma_with_server(listeners, addr, index, k);
    let indices = if k < listeners.len() {
        listeners[k].server_indices.push(index)
    } else {
        seq![index]
    };
    assert(after[k] == ListenerView { addr, server_indices: indices });
    assert(indices[indices.len() - 1] == index);
    assert(indices.contains(index));
    assert forall|a: ListenAddr, i: usize| #[trigger] listed(after, a, i) <==> listed(
        listeners,
        a,
        i,
    ) || (a == addr && i == index) by {
        if listed(after, a, i) {
            let j = choose|j: int|
                0 <= j < after.len() && (#[trigger] after[j]).addr == a
                    && after[j].server_indices.contains(i);
            if j != k {
                assert(after[j] == listeners[j]);
            } else if i != index {
                let m = indices.index_of(i);
                assert(k < listeners.len());
                assert(listeners[k].server_indices[m] == i);
                assert(listeners[k].server_indices.contains(i));
            }
        }
        if listed(listeners, a, i) {
            let j = choose|j: int|
                0 <= j < listeners.len() && (#[trigger] listeners[j]).addr == a
                    && listeners[j].server_indices.contains(i);
            if j != k {
                assert(after[j] == listeners[j]);
            } else {
                let m = listeners[k].server_indices.index_of(i);
                assert(indices[m] == i);
                assert(after[k].server_indices.contains(i));
            }
        }
        if a == addr && i == index {
            assert(after[k].server_indices.contains(i));
        }
    }
    assert forall|i: int| 0 <= i < after.len() implies (#[trigger] after[i]).server_indices.len()
        > 0 by {
        if i != k {
            assert(after[i] == listeners[i]);
        }
    }
    assert forall|i: int, j: int| 0 <= i < j < after.len() implies (#[trigger] after[i]).addr != (
    #[trigger] after[j]).addr by {
        if i != k {
            assert(after[i] == listeners[i]);
        }
        if j != k {
            assert(after[j] == listeners[j]);
        }
    }
}

proof fn lemma_with_addresses(
    listeners: Seq<ListenerView>,
    addrs: Seq<ListenAddr>,
    index: usize,
    n: int,
)
    requires
        one_per_address(listeners),
        none_idle(listeners),
        0 <= n <= addrs.len(),
    ensures
        one_per_address(with_addresses(listeners, addrs, index, n)),
        none_idle(with_addresses(listeners, addrs, index, n)),
        forall|a: ListenAddr, i: usize| #[trigger]
            listed(with_addresses(listeners, addrs, index, n), a, i) <==> listed(listeners, a, i)
                || (i == index && addrs.take(n).contains(a)),
    decreases n,
{
    if n > 0 {
        lemma_with_addresses(listeners, addrs, index, n - 1);
        let before = with_addresses(listeners, addrs, index, n - 1);
        lemma_with_server_listed(before, addrs[n - 1], index);
        let shorter = addrs.take(n - 1);
        let longer = addrs.take(n);
        assert forall|a: ListenAddr| #[trigger] longer.contains(a) <==> shorter.contains(a) || a
            == addrs[n - 1] by {
            if shorter.contains(a) {
                let j = shorter.index_of(a);
                assert(longer[j] == a);
            }
            if longer.contains(a) {
                let j = longer.index_of(a);
                if j < n - 1 {
                    assert(shorter[j] == a);
                }
            }
            assert(longer[n - 1] == addrs[n - 1]);
        }
    }
}

/// There is one listener for each address that a server names, and it has exactly the servers that
/// name the address, of which there is at least one.
pub proof fn law_listeners_match_the_servers(configs: Seq<ServerView>, n: int)
    requires
        0 <= n <= configs.len() <= usize::MAX,
    ensures
        one_per_address(grouped(configs, n)),
        none_idle(grouped(configs, n)),
        forall|a: ListenAddr, i: usize| #[trigger]
            listed(grouped(configs, n), a, i) <==> i < n && configs[i as int].listens.contains(a),
    decreases n,
{
    if n > 0 {
        law_listeners_match_the_servers(configs, n - 1);
        let listens = configs[n - 1].listens;
        let index = (n - 1) as usize;
        lemma_with_addresses(grouped(configs, n - 1), listens, index, listens.len() as int);
        assert(listens.take(listens.len() as int) =~= listens);
    }
}

/// The servers are all there.
pub open spec fn all_known(configs: Seq<ServerView>, indices: Seq<usize>) -> bool {
    forall|k: int| 0 <= k < indices.len() ==> (#[trigger] indices[k]) < configs.len()
}

proof fn lemma_named_server(configs: Seq<ServerView>, indices: Seq<usize>, host: Seq<char>)
    requires
        all_known(configs, indices),
    ensures
        match named_server(configs, indices, host) {
            None => false,
            Some(Some(index)) => exists|k: int|
                0 <= k < indices.len() && #[trigger] indices[k] == index && answers_to(
                    configs[index as int],
                    host,
                ) && forall|j: int|
                    0 <= j < k ==> !answers_to(configs[(#[trigger] indices[j]) as int], host),
            Some(None) => forall|j: int|
                0 <= j < indices.len() ==> !answers_to(
                    configs[(#[trigger] indices[j]) as int],
                    host,
                ),
        },
    decreases indices.len(),
{
    if indices.len() > 0 {
        assert(indices[0] < configs.len());
        if answers_to(configs[indices[0] as int], host) {
            assert(indices[0] == named_server(configs, indices, host)->0->0);
        } else {
            let rest = indices.skip(1);
            assert forall|k: int| 0 <= k < rest.len() implies (#[trigger] rest[k])
                < configs.len() by {
                assert(rest[k] == indices[k + 1]);
            }
            lemma_named_server(configs, rest, host);
            match named_server(configs, rest, host) {
                Some(Some(index)) => {
                    let k = choose|k: int|
                        0 <= k < rest.len() && #[trigger] rest[k] == index && answers_to(
                            configs[index as int],
                            host,
                        ) && forall|j: int|
                            0 <= j < k ==> !answers_to(configs[(#[trigger] rest[j]) as int], host);
                    assert(indices[k + 1] == index);
                    assert forall|j: int| 0 <= j < k + 1 implies !answers_to(
                        configs[(#[trigger] indices[j]) as int],
                        host,
                    ) by {
                        if j > 0 {
                            assert(rest[j - 1] == indices[j]);
                        }
                    }
                },
                _ => {
                    assert forall|j: int| 0 <= j < indices.len() implies !answers_to(
                        configs[(#[trigger] indices[j]) as int],
                        host,
                    ) by {
                        if j > 0 {
                            assert(rest[j - 1] == indices[j]);
                        }
                    }
                },
            }
        }
    }
}

/// A request on a listener is for one of its servers: the first that has the host among its names,
/// or the first of all where none has.
pub proof fn law_host_chooses_the_server(
    configs: Seq<ServerView>,
    indices: Seq<usize>,
    host_header: Seq<char>,
)
    requires
        all_known(configs, indices),
        indices.len() > 0,
    ensures
        ({
            let host = lower(host_name(host_header));
            resolved(configs, indices, host_header) matches Some(index) && exists|k: int|
                0 <= k < indices.len() && #[trigger] indices[k] == index && (answers_to(
                    configs[index as int],
                    host,
                ) || (k == 0 && forall|j: int|
                    0 <= j < indices.len() ==> !answers_to(
                        configs[(#[trigger] indices[j]) as int],
                        host,
                    ))) && forall|j: int|
                    0 <= j < k ==> !answers_to(configs[(#[trigger] indices[j]) as int], host)
        }),
{
    let host = lower(host_name(host_header));
    lemma_named_server(configs, indices, host);
    if let Some(None) = named_server(configs, indices, host) {
        assert(indices[0] == resolved(configs, indices, host_header)->0);
    }
}

/// A configured server gets the requests for its names: on each of its listeners, a request whose
/// Host header gives one of the names is for that server.
pub proof fn law_named_server_gets_the_request(
    text: Seq<char>,
    configs: Seq<ServerView>,
    listener: ListenerView,
    index: usize,
    host_header: Seq<char>,
)
    requires
        config_servers(text) == Ok::<Seq<ServerView>, Seq<char>>(configs),
        configs.len() <= usize::MAX,
        grouped(configs, configs.len() as int).contains(listener),
        listener.server_indices.contains(index),
        configs[index as int].server_names.contains(lower(host_name(host_header))),
    ensures
        resolved(configs, listener.server_indices, host_header) == Some(index),
{
    let indices = listener.server_indices;
    let host = lower(host_name(host_header));
    let all = grouped(configs, configs.len() as int);
    law_configured_servers(text);
    law_listeners_match_the_servers(configs, configs.len() as int);
    let at = all.index_of(listener);
    assert forall|i: usize| #[trigger] indices.contains(i) implies i < configs.len()
        && configs[i as int].listens.contains(listener.addr) by {
        assert(all[at].addr == listener.addr);
        assert(listed(all, listener.addr, i));
    }
    assert forall|k: int| 0 <= k < indices.len() implies (#[trigger] indices[k])
        < configs.len() by {
        assert(indices.contains(indices[k]));
    }
    lemma_lower_twice(host_name(host_header));
    lemma_named_server(configs, indices, host);
    let own = configs[index as int];
    assert(indices.contains(index));
    let named = own.server_names.index_of(host);
    assert(same_ignoring_case(own.server_names[named], host));
    assert(answers_to(own, host));
    let m = indices.index_of(index);
    assert(answers_to(configs[indices[m] as int], host));
    match named_server(configs, indices, host) {
        Some(Some(other)) => {
            assert(indices.contains(other));
            let server = configs[other as int];
            let k = choose|k: int|
                0 <= k < server.server_names.len() && same_ignoring_case(
                    #[trigger] server.server_names[k],
                    host,
                );
            assert(sound_server(server));
            assert(lower(server.server_names[k]) == server.server_names[k]);
            assert(server.server_names.contains(host));
            assert(own.server_names.contains(host));
            assert(names_clash(server, own));
            assert(names_clash(own, server));
            assert(own.listens.contains(listener.addr));
            assert(server.listens.contains(listener.addr));
            if other < index {
                assert(configs[other as int].listens.contains(listener.addr)
                    && configs[index as int].listens.contains(listener.addr));
            }
        },
        _ => {},
    }
}

proof fn lemma_listener_known(configs: Seq<ServerView>, listener: ListenerView)
    requires
        configs.len() <= usize::MAX,
        grouped(configs, configs.len() as int).contains(listener),
    ensures
        all_known(configs, listener.server_indices),
        listener.server_indices.len() > 0,
{
    let indices = listener.server_indices;
    let all = grouped(configs, configs.len() as int);
    law_listeners_match_the_servers(configs, configs.len() as int);
    let at = all.index_of(listener);
    assert(all[at] == listener);
    assert forall|k: int| 0 <= k < indices.len() implies (#[trigger] indices[k])
        < configs.len() by {
        assert(indices.contains(indices[k]));
        assert(listed(all, listener.addr, indices[k]));
    }
}

/// Every request that a listener of a configuration receives is taken on by a location of one of
/// the listener's servers, unless its body is too long or its path cannot be resolved.
pub proof fn law_every_request_finds_a_location(
    text: Seq<char>,
    configs: Seq<ServerView>,
    listener: ListenerView,
    request: RequestView,
)
    requires
        config_servers(text) == Ok::<Seq<ServerView>, Seq<char>>(configs),
        configs.len() <= usize::MAX,
        grouped(configs, configs.len() as int).contains(listener),
    ensures
        match verdict(configs, listener.server_indices, request) {
            VerdictView::Work { server, .. } => listener.server_indices.contains(server),
            VerdictView::Reply { server, reply, .. } => listener.server_indices.contains(server)
                && ((reply.status() == 413 && request.body.len()
                > configs[server as int].client_max_body_size) || (reply.status() == 400
                && normal_path(request.path) is Err)),
            VerdictView::Drop => false,
        },
{
    lemma_listener_known(configs, listener);
    law_host_chooses_the_server(configs, listener.server_indices, request.host());
    law_configured_servers(text);
    let index = resolved(configs, listener.server_indices, request.host())->0;
    assert(listener.server_indices.contains(index));
    let server = configs[index as int];
    assert(root_index(server.routes) is Some);
    if let Ok(path) = normal_path(request.path) {
        law_normal_path_is_safe(request.path);
        law_absolute_path_has_a_location(server, path);
    }
}

/// A request whose path leads to a parent, however its dots are escaped, is answered with an error
/// before any file is looked at.
pub proof fn law_traversal_reaches_no_file(
    configs: Seq<ServerView>,
    indices: Seq<usize>,
    request: RequestView,
    decoded: Seq<char>,
)
    requires
        percent_text(request.path) == Ok::<Seq<char>, Seq<char>>(decoded),
        has_parent(decoded),
    ensures
        match verdict(configs, indices, request) {
            VerdictView::Work { .. } => false,
            VerdictView::Reply { reply, .. } => reply.status() == 400 || reply.status() == 413,
            VerdictView::Drop => true,
        },
{
    law_parent_paths_are_refused(request.path, decoded);
}

/// The work on a request starts below the root of the location that took it on.
pub proof fn law_work_starts_below_the_root(
    configs: Seq<ServerView>,
    indices: Seq<usize>,
    request: RequestView,
)
    ensures
        match verdict(configs, indices, request) {
            VerdictView::Work { server, route, action, .. } => action matches ActionView::Step(step)
                ==> stays_below(configs[server as int].routes[route], step),
            _ => true,
        },
{
    if let VerdictView::Work { server, route, request: normal, .. } = verdict(
        configs,
        indices,
        request,
    ) {
        law_first_step_stays_below(configs[server as int].routes[route], normal);
    }
}

} // verus!
