//! The server between its events: connections, scripts and sessions, and what each event leads to.

use crate::addr::ListenAddr;
use crate::cgi::{
    cgi_input_closed_error, input_closed_failure, stream_read, CgiTask, CgiTaskView, ChildStatus,
    InputStep, IoFailure,
};
use crate::client::{
    intake, law_early_refusal_is_right, oversized, AfterWrite, Client, ClientView, Intake, IntakeView, Interest, Reaction, Readiness,
    MAX_HARD_REQUEST,
};
use crate::config::{server_views, ServerConfig, ServerView};
use crate::dispatch::{
    begin_request, cgi_reply, ended_reply, finish_reply, group_listeners, grouped, listener_views,
    reply_response, verdict, Listener, ListenerView, Verdict, VerdictView,
};
use crate::handler::{next_step, started, ActionView, Answer, Step};
use crate::http::{parse, Request, RequestView};
use crate::reply::{opt_bytes, Reply, ReplyView};
use crate::response::response_bytes;
use crate::session::{without_expired, SessionStore, Stamp, StoreView};
use std::collections::HashMap;
use vstd::prelude::*;
use vstd::std_specs::hash::spec_keys_iter;
use vstd::std_specs::iter::IteratorSpec;

verus! {

broadcast use vstd::std_specs::hash::group_hash_axioms;

/// The server between its events. Connections are known by their tokens, and a script by the
/// token of the connection that it works for.
pub struct HttpServer {
    configs: Vec<ServerConfig>,
    listeners: Vec<Listener>,
    clients: HashMap<u64, Client>,
    tasks: HashMap<u64, CgiTask>,
    sessions: SessionStore,
}

/// What the server holds.
#[verifier::ext_equal]
pub struct HttpServerView {
    pub configs: Seq<ServerView>,
    pub listeners: Seq<ListenerView>,
    pub clients: Map<u64, ClientView>,
    pub tasks: Map<u64, CgiTaskView>,
    pub sessions: StoreView,
}

pub open spec fn client_views(clients: Map<u64, Client>) -> Map<u64, ClientView> {
    clients.map_values(|c: Client| c@)
}

pub open spec fn task_views(tasks: Map<u64, CgiTask>) -> Map<u64, CgiTaskView> {
    tasks.map_values(|t: CgiTask| t@)
}

impl View for HttpServer {
    type V = HttpServerView;

    closed spec fn view(&self) -> HttpServerView {
        HttpServerView {
            configs: server_views(self.configs@),
            listeners: listener_views(self.listeners@),
            clients: client_views(self.clients@),
            tasks: task_views(self.tasks@),
            sessions: self.sessions@,
        }
    }
}

/// Work on a request that a location has taken on.
#[derive(Debug)]
pub struct Job {
    pub server_index: usize,
    pub route_index: usize,
    pub request: Request,
    pub step: Step,
    pub keep_alive: bool,
}

/// What an event on a connection leads to.
#[derive(Debug)]
pub enum Next {
    /// Nothing, until the next event.
    Wait,
    /// The end of the connection.
    Close,
    /// A reply.
    Reply { server_index: usize, reply: Reply, keep_alive: bool },
    /// Work on a request.
    Work(Job),
}

pub enum NextView {
    Wait,
    Close,
    Reply { server: usize, reply: ReplyView, keep_alive: bool },
    Work { server: usize, route: int, request: RequestView, action: ActionView, keep_alive: bool },
}

/// What the input of a connection leads to, where its listener has the given servers.
pub open spec fn next_for(configs: Seq<ServerView>, indices: Seq<usize>, input: Seq<u8>) -> NextView {
    match intake(input, configs, indices) {
        IntakeView::Wait => NextView::Wait,
        IntakeView::Refuse { server, reply } => NextView::Reply { server, reply, keep_alive: false },
        IntakeView::Request { request, .. } => match verdict(configs, indices, request) {
            VerdictView::Drop => NextView::Close,
            VerdictView::Reply { server, reply, keep_alive } => NextView::Reply {
                server,
                reply,
                keep_alive,
            },
            VerdictView::Work { server, route, request, action, keep_alive } => NextView::Work {
                server,
                route,
                request,
                action,
                keep_alive,
            },
        },
    }
}

/// What is left of the input of a connection once it has been looked at.
pub open spec fn input_left(
    configs: Seq<ServerView>,
    indices: Seq<usize>,
    input: Seq<u8>,
) -> Seq<u8> {
    match intake(input, configs, indices) {
        IntakeView::Request { consumed, .. } => input.skip(consumed),
        _ => input,
    }
}

/// The outcome is what is said of it, and the sessions are those after it.
pub open spec fn next_is(
    next: Next,
    view: NextView,
    stamp: Stamp,
    before: StoreView,
    after: StoreView,
) -> bool {
    match (next, view) {
        (Next::Wait, NextView::Wait) => after == before,
        (Next::Close, NextView::Close) => after == before,
        (
            Next::Reply { server_index, reply, keep_alive },
            NextView::Reply { server, reply: expected, keep_alive: keeps },
        ) => server_index == server && reply@ == expected && keep_alive == keeps && after == before,
        (
            Next::Work(job),
            NextView::Work { server, route, request, action, keep_alive },
        ) => job.server_index == server && job.route_index == route && job.request@ == request
            && job.keep_alive == keep_alive && started(
            action,
            request,
            stamp,
            before,
            after,
            job.step@,
        ),
        _ => false,
    }
}

impl HttpServerView {
    /// A script is at work exactly for the connections that are marked so, and no more of a
    /// script's input has been written than there is.
    pub open spec fn wf(self) -> bool {
        &&& forall|t: u64| #[trigger]
            self.tasks.dom().contains(t) ==> self.clients.dom().contains(t)
                && self.clients[t].processing && self.tasks[t].wf()
        &&& forall|t: u64| #[trigger]
            self.clients.dom().contains(t) && self.clients[t].processing
                ==> self.tasks.dom().contains(t)
    }

    /// The servers that share the listener of a connection.
    pub open spec fn indices(self, token: u64) -> Seq<usize> {
        let listener = self.clients[token].listener;
        if listener < self.listeners.len() {
            self.listeners[listener as int].server_indices
        } else {
            Seq::empty()
        }
    }

    /// The server with a connection in another state.
    pub open spec fn with_client(self, token: u64, client: ClientView) -> HttpServerView {
        HttpServerView { clients: self.clients.insert(token, client), ..self }
    }

    /// The server with a script in another state.
    pub open spec fn with_task(self, token: u64, task: CgiTaskView) -> HttpServerView {
        HttpServerView { tasks: self.tasks.insert(token, task), ..self }
    }

    /// The server without a connection, and without the script that works for it.
    pub open spec fn without(self, token: u64) -> HttpServerView {
        HttpServerView {
            clients: self.clients.remove(token),
            tasks: self.tasks.remove(token),
            ..self
        }
    }

    /// What the input of a connection leads to.
    pub open spec fn next(self, token: u64) -> NextView {
        next_for(self.configs, self.indices(token), self.clients[token].input)
    }

    /// The connection once its input has been looked at.
    pub open spec fn looked_at(self, token: u64) -> ClientView {
        ClientView {
            input: input_left(self.configs, self.indices(token), self.clients[token].input),
            ..self.clients[token]
        }
    }
}

proof fn lemma_client_changed(server: HttpServerView, token: u64, client: ClientView)
    requires
        server.wf(),
        server.clients.dom().contains(token),
        client.processing == server.clients[token].processing,
    ensures
        server.with_client(token, client).wf(),
{
    let after = server.with_client(token, client);
    assert forall|t: u64| #[trigger] after.tasks.dom().contains(t) implies after.clients.dom().contains(
        t,
    ) && after.clients[t].processing && after.tasks[t].wf() by {
        assert(server.tasks.dom().contains(t));
    }
    assert forall|t: u64| #[trigger]
        after.clients.dom().contains(t) && after.clients[t].processing implies after.tasks.dom().contains(
        t,
    ) by {
        assert(server.clients.dom().contains(t));
    }
}

impl HttpServer {
    /// A server without connections.
    pub fn new(configs: Vec<ServerConfig>) -> (r: HttpServer)
        ensures
            r@ == (HttpServerView {
                configs: server_views(configs@),
                listeners: grouped(server_views(configs@), configs@.len() as int),
                clients: Map::empty(),
                tasks: Map::empty(),
                sessions: StoreView { sessions: Map::empty(), seq: 0 },
            }),
            r@.wf(),
    {
        let listeners = group_listeners(configs.as_slice());
        let r = HttpServer {
            configs,
            listeners,
            clients: HashMap::new(),
            tasks: HashMap::new(),
            sessions: SessionStore::new(),
        };
        assert(r@.clients =~= Map::empty());
        assert(r@.tasks =~= Map::empty());
        r
    }

    /// The servers that were configured.
    pub fn configs(&self) -> (r: &[ServerConfig])
        ensures
            server_views(r@) == self@.configs,
    {
        self.configs.as_slice()
    }

    /// The listeners that the servers ask for.
    pub fn listeners(&self) -> (r: &[Listener])
        ensures
            listener_views(r@) == self@.listeners,
    {
        self.listeners.as_slice()
    }

    /// Takes on a connection that was accepted on a listener.
    pub fn accept_once(&mut self, listener: usize, token: u64, now: u64)
        requires
            old(self)@.wf(),
        ensures
            final(self)@ == old(self)@.without(token).with_client(
                token,
                ClientView::fresh(listener, now),
            ),
            final(self)@.wf(),
    {
        let client = Client::new(listener, now);
        self.take_task(token);
        self.put_client(token, client);
        assert(self@.tasks =~= old(self)@.tasks.remove(token));
        assert(self@.clients =~= old(self)@.without(token).with_client(
            token,
            ClientView::fresh(listener, now),
        ).clients);
    }

    /// Ends a connection, and says whether a script was at work for it, which is to be ended too.
    pub fn remove_client(&mut self, token: u64) -> (r: bool)
        requires
            old(self)@.wf(),
        ensures
            final(self)@ == old(self)@.without(token),
            r == old(self)@.tasks.dom().contains(token),
            final(self)@.wf(),
    {
        let task = self.take_task(token);
        self.take_client(token);
        assert(self@.tasks =~= old(self)@.tasks.remove(token));
        assert(self@.clients =~= old(self)@.clients.remove(token));
        task.is_some()
    }

    /// What to wait for on a connection.
    pub fn interest(&self, token: u64) -> (r: Option<Interest>)
        ensures
            r == if self@.clients.dom().contains(token) {
                Some(self@.clients[token].interest())
            } else {
                None
            },
    {
        match self.clients.get(&token) {
            Some(client) => Some(client.interest()),
            None => None,
        }
    }

    /// What to do where a connection is ready for something. Events with the token of a connection
    /// that has ended are ignored.
    pub fn react(&mut self, token: u64, ready: Readiness) -> (r: Reaction)
        requires
            old(self)@.wf(),
        ensures
            final(self)@.wf(),
            if old(self)@.clients.dom().contains(token) {
                let client = old(self)@.clients[token];
                &&& r == client.reaction(ready)
                &&& final(self)@ == old(self)@.with_client(
                    token,
                    ClientView { peer_closed: client.peer_closed || ready.peer_closed, ..client },
                )
            } else {
                r is Ignore && final(self)@ == old(self)@
            },
    {
        match self.take_client(token) {
            None => Reaction::Ignore,
            Some(client) => {
                let mut client = client;
                let r = client.react(ready);
                proof {
                    lemma_client_changed(old(self)@, token, client@);
                }
                self.put_client(token, client);
                assert(self@ =~= old(self)@.with_client(token, client@));
                r
            },
        }
    }

    fn take_client(&mut self, token: u64) -> (r: Option<Client>)
        ensures
            match r {
                Some(client) => old(self)@.clients.dom().contains(token) && client@
                    == old(self)@.clients[token] && final(self)@ == (HttpServerView {
                    clients: old(self)@.clients.remove(token),
                    ..old(self)@
                }),
                None => !old(self)@.clients.dom().contains(token) && final(self)@ == old(self)@,
            },
    {
        let ghost before = self.clients@;
        assert(client_views(before.remove(token)) =~= client_views(before).remove(token));
        let r = self.clients.remove(&token);
        if r.is_none() {
            assert(self.clients@ =~= before);
        }
        r
    }

    fn put_client(&mut self, token: u64, client: Client)
        ensures
            final(self)@ == old(self)@.with_client(token, client@),
    {
        assert(client_views(self.clients@.insert(token, client)) =~= client_views(
            self.clients@,
        ).insert(token, client@));
        self.clients.insert(token, client);
    }

    fn take_task(&mut self, token: u64) -> (r: Option<CgiTask>)
        ensures
            match r {
                Some(task) => old(self)@.tasks.dom().contains(token) && task@
                    == old(self)@.tasks[token] && final(self)@ == (HttpServerView {
                    tasks: old(self)@.tasks.remove(token),
                    ..old(self)@
                }),
                None => !old(self)@.tasks.dom().contains(token) && final(self)@ == old(self)@,
            },
    {
        let ghost before = self.tasks@;
        assert(task_views(before.remove(token)) =~= task_views(before).remove(token));
        let r = self.tasks.remove(&token);
        if r.is_none() {
            assert(self.tasks@ =~= before);
        }
        r
    }

    fn put_task(&mut self, token: u64, task: CgiTask)
        ensures
            final(self)@ == old(self)@.with_task(token, task@),
    {
        assert(task_views(self.tasks@.insert(token, task)) =~= task_views(self.tasks@).insert(
            token,
            task@,
        ));
        self.tasks.insert(token, task);
    }

    /// Looks at the input of a connection: takes the next request out of it, where it has arrived,
    /// and starts on it.
    pub fn process_client_buffer(&mut self, token: u64, stamp: Stamp) -> (r: Next)
        requires
            old(self)@.wf(),
        ensures
            final(self)@.wf(),
            if old(self)@.clients.dom().contains(token) {
                &&& next_is(r, old(self)@.next(token), stamp, old(self)@.sessions, final(self)@.sessions)
                &&& final(self)@ == (HttpServerView {
                    sessions: final(self)@.sessions,
                    ..old(self)@.with_client(token, old(self)@.looked_at(token))
                })
            } else {
                r is Wait && final(self)@ == old(self)@
            },
    {
        let mut client = match self.take_client(token) {
            None => {
                return Next::Wait;
            },
            Some(client) => client,
        };
        let listener: usize = client.listener();
        let indices: Vec<usize> = if listener < self.listeners.len() {
            assert(listener_views(self.listeners@)[listener as int]
                == self.listeners@[listener as int]@);
            self.listeners[listener].server_indices.clone()
        } else {
            Vec::new()
        };
        assert(indices@ =~= old(self)@.indices(token));
        let taken = client.next_request(self.configs.as_slice(), indices.as_slice());
        proof {
            lemma_client_changed(old(self)@, token, client@);
        }
        assert(client@ =~= old(self)@.looked_at(token));
        self.put_client(token, client);
        assert(self@ =~= old(self)@.with_client(token, client@));
        match taken {
            Intake::Wait => Next::Wait,
            Intake::Refuse { server_index, reply } => Next::Reply {
                server_index,
                reply,
                keep_alive: false,
            },
            Intake::Request(request) => {
                let verdict = begin_request(
                    self.configs.as_slice(),
                    &mut self.sessions,
                    indices.as_slice(),
                    request,
                    stamp,
                );
                assert(self@.wf()) by {
                    assert(self@.clients == old(self)@.with_client(token, client@).clients);
                    assert(self@.tasks == old(self)@.tasks);
                }
                match verdict {
                    Verdict::Drop => Next::Close,
                    Verdict::Reply { server_index, reply, keep_alive } => Next::Reply {
                        server_index,
                        reply,
                        keep_alive,
                    },
                    Verdict::Work { server_index, route_index, request, step, keep_alive } => {
                        Next::Work(Job { server_index, route_index, request, step, keep_alive })
                    },
                }
            },
        }
    }
}

impl HttpServerView {
    /// The server after bytes have arrived on a connection.
    pub open spec fn received(self, token: u64, bytes: Seq<u8>, now: u64) -> HttpServerView {
        self.with_client(token, self.clients[token].received(bytes, now))
    }

    /// The server after bytes were sent on a connection.
    pub open spec fn sent(self, token: u64, n: int, now: u64) -> HttpServerView {
        self.with_client(token, self.clients[token].sent(n, now))
    }

    /// The port that a connection came through.
    pub open spec fn port(self, token: u64) -> u16 {
        let listener = self.clients[token].listener;
        if self.clients.dom().contains(token) && listener < self.listeners.len() {
            addr_port(self.listeners[listener as int].addr)
        } else {
            0
        }
    }

    /// The connection has been idle for too long.
    pub open spec fn is_expired(self, token: u64, now: u64) -> bool {
        self.clients.dom().contains(token) && self.clients[token].expired(now)
    }
}

/// The port in an address.
pub open spec fn addr_port(addr: ListenAddr) -> u16 {
    match addr {
        ListenAddr::V4 { port, .. } => port,
        ListenAddr::V6 { ipv6_port, .. } => ipv6_port,
    }
}

/// The server and the outcome once the input of a connection was looked at.
pub open spec fn processed(
    before: HttpServerView,
    token: u64,
    stamp: Stamp,
    next: Next,
    after: HttpServerView,
) -> bool {
    &&& next_is(next, before.next(token), stamp, before.sessions, after.sessions)
    &&& after == (HttpServerView {
        sessions: after.sessions,
        ..before.with_client(token, before.looked_at(token))
    })
}

impl HttpServer {
    /// Takes in what a read on a connection gave: nothing at all ends the connection.
    pub fn read_once(&mut self, token: u64, outcome: Result<&[u8], IoFailure>, stamp: Stamp) -> (r:
        Next)
        requires
            old(self)@.wf(),
        ensures
            final(self)@.wf(),
            if !old(self)@.clients.dom().contains(token) {
                r is Wait && final(self)@ == old(self)@
            } else {
                match outcome {
                    Ok(bytes) => if bytes@.len() == 0 {
                        r is Close && final(self)@ == old(self)@
                    } else {
                        processed(
                            old(self)@.received(token, bytes@, stamp.now),
                            token,
                            stamp,
                            r,
                            final(self)@,
                        )
                    },
                    Err(f) => final(self)@ == old(self)@ && (r is Wait || r is Close) && (r is Wait
                        <==> f is WouldBlock),
                }
            },
    {
        if !self.clients.contains_key(&token) {
            return Next::Wait;
        }
        let bytes = match outcome {
            Err(failure) => {
                return if failure == IoFailure::WouldBlock {
                    Next::Wait
                } else {
                    Next::Close
                };
            },
            Ok(bytes) => bytes,
        };
        if bytes.len() == 0 {
            return Next::Close;
        }
        match self.take_client(token) {
            None => Next::Wait,
            Some(client) => {
                let mut client = client;
                client.receive(bytes, stamp.now);
                proof {
                    lemma_client_changed(old(self)@, token, client@);
                }
                self.put_client(token, client);
                assert(self@ =~= old(self)@.received(token, bytes@, stamp.now));
                self.process_client_buffer(token, stamp)
            },
        }
    }

    /// What is to be sent on a connection.
    pub fn pending_output(&self, token: u64) -> (r: Option<&[u8]>)
        ensures
            match r {
                Some(bytes) => self@.clients.dom().contains(token) && bytes@
                    == self@.clients[token].output,
                None => !self@.clients.dom().contains(token),
            },
    {
        match self.clients.get(&token) {
            Some(client) => Some(client.pending_output()),
            None => None,
        }
    }

    /// Takes note of how a write on a connection went. Once everything is sent, the connection is
    /// closed, or the next request is looked for in what has arrived.
    pub fn write_once(&mut self, token: u64, outcome: Result<usize, IoFailure>, stamp: Stamp) -> (r:
        Next)
        requires
            old(self)@.wf(),
            outcome matches Ok(n) ==> old(self)@.clients.dom().contains(token) ==> n
                <= old(self)@.clients[token].output.len(),
        ensures
            final(self)@.wf(),
            if !old(self)@.clients.dom().contains(token) {
                r is Wait && final(self)@ == old(self)@
            } else {
                match outcome {
                    Ok(n) => if n == 0 {
                        r is Close && final(self)@ == old(self)@
                    } else {
                        let sent = old(self)@.sent(token, n as int, stamp.now);
                        match old(self)@.clients[token].after_write(n as int) {
                            AfterWrite::More => r is Wait && final(self)@ == sent,
                            AfterWrite::Close => r is Close && final(self)@ == sent,
                            AfterWrite::Ready { buffered } => if buffered {
                                processed(sent, token, stamp, r, final(self)@)
                            } else {
                                r is Wait && final(self)@ == sent
                            },
                        }
                    },
                    Err(f) => final(self)@ == old(self)@ && (r is Wait || r is Close) && (r is Wait
                        <==> f is WouldBlock),
                }
            },
    {
        if !self.clients.contains_key(&token) {
            return Next::Wait;
        }
        let count: usize = match outcome {
            Err(failure) => {
                return if failure == IoFailure::WouldBlock {
                    Next::Wait
                } else {
                    Next::Close
                };
            },
            Ok(count) => count,
        };
        if count == 0 {
            return Next::Close;
        }
        match self.take_client(token) {
            None => Next::Wait,
            Some(client) => {
                let mut client = client;
                let after = client.write_once(count, stamp.now);
                proof {
                    lemma_client_changed(old(self)@, token, client@);
                }
                self.put_client(token, client);
                assert(self@ =~= old(self)@.sent(token, count as int, stamp.now));
                match after {
                    AfterWrite::More => Next::Wait,
                    AfterWrite::Close => Next::Close,
                    AfterWrite::Ready { buffered } => {
                        if buffered {
                            self.process_client_buffer(token, stamp)
                        } else {
                            Next::Wait
                        }
                    },
                }
            },
        }
    }

    /// Goes on with the work on a request after an answer to its step.
    pub fn advance(&self, job: Job, answer: Answer) -> (r: Job)
        ensures
            job.server_index < self@.configs.len() && job.route_index
                < self@.configs[job.server_index as int].routes.len() ==> r.step@ == next_step(
                self@.configs[job.server_index as int].routes[job.route_index as int],
                job.request@,
                job.step@,
                answer@,
            ),
            !(job.server_index < self@.configs.len() && job.route_index
                < self@.configs[job.server_index as int].routes.len()) ==> r.step@ == job.step@,
            r.server_index == job.server_index,
            r.route_index == job.route_index,
            r.request@ == job.request@,
            r.keep_alive == job.keep_alive,
    {
        if job.server_index >= self.configs.len() {
            return job;
        }
        assert(self@.configs[job.server_index as int] == self.configs@[job.server_index as int]@);
        let server = &self.configs[job.server_index];
        if job.route_index >= server.routes.len() {
            return job;
        }
        let route = &server.routes[job.route_index];
        assert(server@.routes[job.route_index as int] == route@);
        let Job { server_index, route_index, request, step, keep_alive } = job;
        let step = step.advance(route, &request, answer);
        Job { server_index, route_index, request, step, keep_alive }
    }

    /// Queues a reply on a connection, dated `seconds` after the start of 1970, where `content` is
    /// what could be read of the file that the reply needs.
    pub fn queue_reply(
        &mut self,
        token: u64,
        server_index: usize,
        reply: Reply,
        content: Option<Vec<u8>>,
        keep_alive: bool,
        seconds: u64,
        now: u64,
    )
        requires
            old(self)@.wf(),
        ensures
            final(self)@.wf(),
            final(self)@ == if old(self)@.clients.dom().contains(token) {
                let response = reply_response(
                    old(self)@.configs,
                    server_index,
                    reply@,
                    opt_bytes(content),
                );
                old(self)@.with_client(
                    token,
                    old(self)@.clients[token].queued(
                        response_bytes(response, keep_alive, seconds as int),
                        keep_alive,
                        now,
                    ),
                )
            } else {
                old(self)@
            },
    {
        match self.take_client(token) {
            None => {},
            Some(client) => {
                let mut client = client;
                let response = finish_reply(self.configs.as_slice(), server_index, reply, content);
                client.queue_response(&response, keep_alive, seconds, now);
                proof {
                    lemma_client_changed(old(self)@, token, client@);
                }
                self.put_client(token, client);
                assert(self@ =~= old(self)@.with_client(token, client@));
            },
        }
    }

    // Scripts

    /// The port that a connection came through.
    pub fn server_port(&self, token: u64) -> (r: u16)
        ensures
            r == self@.port(token),
    {
        match self.clients.get(&token) {
            None => 0,
            Some(client) => {
                let listener: usize = client.listener();
                if listener >= self.listeners.len() {
                    return 0;
                }
                assert(listener_views(self.listeners@)[listener as int]
                    == self.listeners@[listener as int]@);
                match self.listeners[listener].addr {
                    ListenAddr::V4 { port, .. } => port,
                    ListenAddr::V6 { ipv6_port, .. } => ipv6_port,
                }
            },
        }
    }

    /// Takes note that a script was started for a connection; false where the connection has ended,
    /// and the script is to be ended too.
    pub fn start_cgi(&mut self, token: u64, task: CgiTask, now: u64) -> (r: bool)
        requires
            old(self)@.wf(),
            task@.wf(),
        ensures
            final(self)@.wf(),
            r == old(self)@.clients.dom().contains(token),
            final(self)@ == if r {
                old(self)@.with_task(token, task@).with_client(
                    token,
                    ClientView { processing: true, last_active: now, ..old(self)@.clients[token] },
                )
            } else {
                old(self)@
            },
    {
        match self.take_client(token) {
            None => false,
            Some(client) => {
                let mut client = client;
                client.set_processing(true, now);
                self.put_client(token, client);
                self.put_task(token, task);
                assert(self@ =~= old(self)@.with_task(token, task@).with_client(token, client@));
                proof {
                    lemma_script_started(old(self)@, token, task@, client@);
                }
                true
            },
        }
    }

    /// The script at work for a connection.
    pub fn task(&self, token: u64) -> (r: Option<&CgiTask>)
        requires
            self@.wf(),
        ensures
            match r {
                Some(task) => self@.tasks.dom().contains(token) && task@ == self@.tasks[token]
                    && task@.wf(),
                None => !self@.tasks.dom().contains(token),
            },
    {
        match self.tasks.get(&token) {
            Some(task) => {
                assert(self@.tasks.dom().contains(token));
                Some(task)
            },
            None => None,
        }
    }

    /// The connections that scripts are at work for.
    pub fn cgi_tokens(&self) -> (r: Vec<u64>)
        ensures
            r@.no_duplicates(),
            r@.to_set() == self@.tasks.dom(),
    {
        let ghost all = spec_keys_iter(&self.tasks).remaining();
        let mut r: Vec<u64> = Vec::new();
        for token in iter: self.tasks.keys()
            invariant
                iter.seq() == all,
                r@.len() == iter.index(),
                forall|i: int| 0 <= i < r@.len() ==> r@[i] == *all[i],
        {
            r.push(*token);
        }
        assert(r@ =~= all.unref());
        assert(self@.tasks.dom() =~= self.tasks@.dom());
        r
    }
}

proof fn lemma_script_started(
    server: HttpServerView,
    token: u64,
    task: CgiTaskView,
    client: ClientView,
)
    requires
        server.wf(),
        task.wf(),
        client.processing,
    ensures
        server.with_task(token, task).with_client(token, client).wf(),
{
    let after = server.with_task(token, task).with_client(token, client);
    assert forall|t: u64| #[trigger] after.tasks.dom().contains(t) implies after.clients.dom().contains(
        t,
    ) && after.clients[t].processing && after.tasks[t].wf() by {
        if t != token {
            assert(server.tasks.dom().contains(t));
        }
    }
    assert forall|t: u64| #[trigger]
        after.clients.dom().contains(t) && after.clients[t].processing implies after.tasks.dom().contains(
        t,
    ) by {
        if t != token {
            assert(server.clients.dom().contains(t));
        }
    }
}

proof fn lemma_task_changed(server: HttpServerView, token: u64, task: CgiTaskView)
    requires
        server.wf(),
        server.tasks.dom().contains(token),
        task.wf(),
    ensures
        server.with_task(token, task).wf(),
{
    let after = server.with_task(token, task);
    assert forall|t: u64| #[trigger] after.tasks.dom().contains(t) implies after.clients.dom().contains(
        t,
    ) && after.clients[t].processing && after.tasks[t].wf() by {
        assert(server.tasks.dom().contains(t));
    }
    assert forall|t: u64| #[trigger]
        after.clients.dom().contains(t) && after.clients[t].processing implies after.tasks.dom().contains(
        t,
    ) by {
        assert(server.clients.dom().contains(t));
    }
}

proof fn lemma_script_ended(server: HttpServerView, token: u64, client: ClientView)
    requires
        server.wf(),
        !client.processing,
    ensures
        (HttpServerView {
            tasks: server.tasks.remove(token),
            ..server.with_client(token, client)
        }).wf(),
{
    let after = HttpServerView {
        tasks: server.tasks.remove(token),
        ..server.with_client(token, client)
    };
    assert forall|t: u64| #[trigger] after.tasks.dom().contains(t) implies after.clients.dom().contains(
        t,
    ) && after.clients[t].processing && after.tasks[t].wf() by {
        assert(server.tasks.dom().contains(t));
    }
    assert forall|t: u64| #[trigger]
        after.clients.dom().contains(t) && after.clients[t].processing implies after.tasks.dom().contains(
        t,
    ) by {
        assert(server.clients.dom().contains(t));
    }
}

/// A script that has ended: the server that answers, the reply, and whether the connection is
/// kept.
#[derive(Debug)]
pub struct Ended {
    pub server_index: usize,
    pub reply: Reply,
    pub keep_alive: bool,
}

impl HttpServerView {
    /// The server once a script has ended: the connection is no longer waiting for it.
    pub open spec fn script_ended(self, token: u64, now: u64) -> HttpServerView {
        HttpServerView {
            tasks: self.tasks.remove(token),
            ..self.with_client(
                token,
                ClientView { processing: false, last_active: now, ..self.clients[token] },
            )
        }
    }
}

impl HttpServer {
    /// What is to be done next with the input of a script.
    pub fn next_cgi_input(&mut self, token: u64) -> (r: InputStep)
        requires
            old(self)@.wf(),
        ensures
            final(self)@.wf(),
            if old(self)@.tasks.dom().contains(token) {
                let task = old(self)@.tasks[token];
                &&& r == task.input_step()
                &&& final(self)@ == old(self)@.with_task(
                    token,
                    CgiTaskView { input_closed: task.input_closed || task.io_eof, ..task },
                )
            } else {
                r is Idle && final(self)@ == old(self)@
            },
    {
        match self.take_task(token) {
            None => InputStep::Idle,
            Some(task) => {
                assert(old(self)@.tasks.dom().contains(token));
                let mut task = task;
                let r = task.next_input();
                proof {
                    lemma_task_changed(old(self)@, token, task@);
                }
                self.put_task(token, task);
                assert(self@ =~= old(self)@.with_task(token, task@));
                r
            },
        }
    }

    /// Takes note of how a write to a script went, and says whether its input is now to be closed.
    pub fn cgi_written(&mut self, token: u64, outcome: Result<usize, IoFailure>) -> (r: Result<
        InputStep,
        IoFailure,
    >)
        requires
            old(self)@.wf(),
            outcome matches Ok(n) ==> old(self)@.tasks.dom().contains(token)
                ==> old(self)@.tasks[token].input_pos + n <= old(self)@.tasks[token].input.len(),
        ensures
            final(self)@.wf(),
            if old(self)@.tasks.dom().contains(token) {
                let task = old(self)@.tasks[token].after_write(outcome);
                &&& final(self)@ == old(self)@.with_task(token, task)
                &&& r is Err <==> (outcome matches Err(f) && !(f is WouldBlock)
                    && !input_closed_failure(f))
                &&& r matches Err(f) ==> outcome == Err::<usize, IoFailure>(f)
                &&& r matches Ok(step) ==> step == (if outcome matches Ok(n) && n > 0
                    && task.input_pos == task.input.len() && !task.input_closed {
                    InputStep::Shutdown
                } else {
                    InputStep::Idle
                })
            } else {
                r == Ok::<InputStep, IoFailure>(InputStep::Idle) && final(self)@ == old(self)@
            },
    {
        match self.take_task(token) {
            None => Ok(InputStep::Idle),
            Some(task) => {
                assert(old(self)@.tasks.dom().contains(token));
                let mut task = task;
                let r = task.write_once(outcome);
                proof {
                    lemma_task_changed(old(self)@, token, task@);
                }
                self.put_task(token, task);
                assert(self@ =~= old(self)@.with_task(token, task@));
                r
            },
        }
    }

    /// Takes note of how closing the input of a script went.
    pub fn cgi_input_closed(&mut self, token: u64, outcome: Result<(), IoFailure>) -> (r: Result<
        (),
        IoFailure,
    >)
        requires
            old(self)@.wf(),
        ensures
            final(self)@.wf(),
            if old(self)@.tasks.dom().contains(token) {
                &&& final(self)@ == old(self)@.with_task(
                    token,
                    old(self)@.tasks[token].after_shutdown(outcome),
                )
                &&& r is Err <==> (outcome matches Err(f) && !input_closed_failure(f))
                &&& r is Err ==> r == outcome
            } else {
                r is Ok && final(self)@ == old(self)@
            },
    {
        match self.take_task(token) {
            None => Ok(()),
            Some(task) => {
                assert(old(self)@.tasks.dom().contains(token));
                let mut task = task;
                let r = task.close_input(outcome);
                proof {
                    lemma_task_changed(old(self)@, token, task@);
                }
                self.put_task(token, task);
                assert(self@ =~= old(self)@.with_task(token, task@));
                r
            },
        }
    }

    /// Takes in what a read from a script gave. A failure which says that the script has gone is the
    /// end of its output.
    pub fn cgi_received(&mut self, token: u64, outcome: Result<&[u8], IoFailure>) -> (r: Result<
        (),
        IoFailure,
    >)
        requires
            old(self)@.wf(),
        ensures
            final(self)@.wf(),
            if old(self)@.tasks.dom().contains(token) {
                &&& final(self)@ == old(self)@.with_task(
                    token,
                    old(self)@.tasks[token].after_read(
                        stream_read(
                            match outcome {
                                Ok(bytes) => Ok(bytes@),
                                Err(f) => Err(f),
                            },
                        ),
                    ),
                )
                &&& r is Err <==> (outcome matches Err(f) && !(f is WouldBlock)
                    && !input_closed_failure(f))
                &&& r matches Err(f) ==> outcome == Err::<&[u8], IoFailure>(f)
            } else {
                r is Ok && final(self)@ == old(self)@
            },
    {
        let nothing: [u8; 0] = [];
        assert(nothing@ =~= Seq::<u8>::empty());
        let taken: Result<&[u8], IoFailure> = match outcome {
            Ok(bytes) => Ok(bytes),
            Err(failure) => {
                if cgi_input_closed_error(failure) {
                    Ok(nothing.as_slice())
                } else {
                    Err(failure)
                }
            },
        };
        match self.take_task(token) {
            None => Ok(()),
            Some(task) => {
                assert(old(self)@.tasks.dom().contains(token));
                let mut task = task;
                let r = task.read_once(taken);
                proof {
                    lemma_task_changed(old(self)@, token, task@);
                }
                self.put_task(token, task);
                assert(self@ =~= old(self)@.with_task(token, task@));
                r
            },
        }
    }

    /// Takes note of what is known of a script's process. Where the script has ended, its
    /// connection gets the reply.
    pub fn poll_cgi_task(&mut self, token: u64, status: ChildStatus, now: u64) -> (r: Option<Ended>)
        requires
            old(self)@.wf(),
        ensures
            final(self)@.wf(),
            if old(self)@.tasks.dom().contains(token) {
                let task = old(self)@.tasks[token];
                match (task.end(status, now), r) {
                    (Some(end), Some(ended)) => final(self)@ == old(self)@.script_ended(token, now)
                        && ended.server_index == task.server_index && ended.keep_alive
                        == task.keep_alive && ended.reply@ == ended_reply(end, task.output),
                    (None, None) => final(self)@ == old(self)@.with_task(
                        token,
                        task.after_poll(status),
                    ),
                    _ => false,
                }
            } else {
                r is None && final(self)@ == old(self)@
            },
    {
        let mut task = match self.take_task(token) {
            None => {
                return None;
            },
            Some(task) => task,
        };
        assert(old(self)@.tasks.dom().contains(token));
        match task.poll(status, now) {
            None => {
                proof {
                    lemma_task_changed(old(self)@, token, task@);
                }
                self.put_task(token, task);
                assert(self@ =~= old(self)@.with_task(token, task@));
                None
            },
            Some(end) => {
                match self.take_client(token) {
                    None => {},
                    Some(client) => {
                        let mut client = client;
                        client.set_processing(false, now);
                        proof {
                            lemma_script_ended(old(self)@, token, client@);
                        }
                        self.put_client(token, client);
                    },
                }
                assert(self@ =~= old(self)@.script_ended(token, now));
                let reply = cgi_reply(end, task.output.as_slice());
                Some(Ended { server_index: task.server_index, reply, keep_alive: task.keep_alive })
            },
        }
    }

    // Time

    /// The connections that have been idle for too long, and are to be ended.
    pub fn expire_clients(&self, now: u64) -> (r: Vec<u64>)
        ensures
            r@.no_duplicates(),
            forall|token: u64| #[trigger] r@.contains(token) <==> self@.is_expired(token, now),
    {
        let ghost keys = spec_keys_iter(&self.clients).remaining().unref();
        let mut r: Vec<u64> = Vec::new();
        for token in iter: self.clients.keys()
            invariant
                iter.seq().unref() == keys,
                keys.no_duplicates(),
                keys.to_set() == self.clients@.dom(),
                r@.no_duplicates(),
                forall|i: int|
                    0 <= i < r@.len() ==> keys.take(iter.index()).contains(#[trigger] r@[i])
                        && self@.is_expired(r@[i], now),
                forall|j: int|
                    0 <= j < iter.index() && self@.is_expired(#[trigger] keys[j], now)
                        ==> r@.contains(keys[j]),
        {
            let ghost before = r@;
            let ghost n = iter.index();
            assert(keys[n] == *token);
            assert(keys.to_set().contains(*token));
            let expired = match self.clients.get(token) {
                Some(client) => client.expired(now),
                None => false,
            };
            if expired {
                r.push(*token);
            }
            proof {
                lemma_expired_step(self@, now, keys, n, before, r@);
            }
        }
        assert(keys.take(keys.len() as int) =~= keys);
        assert forall|token: u64| #[trigger] r@.contains(token) <==> self@.is_expired(
            token,
            now,
        ) by {
            if self@.is_expired(token, now) {
                assert(keys.to_set().contains(token));
                let j = keys.index_of(token);
                assert(keys[j] == token);
            }
        }
        r
    }

    /// Forgets the sessions without a visit for long enough.
    pub fn expire_sessions(&mut self, now: u64)
        requires
            old(self)@.wf(),
        ensures
            final(self)@.wf(),
            final(self)@ == (HttpServerView {
                sessions: without_expired(old(self)@.sessions, now),
                ..old(self)@
            }),
    {
        self.sessions.expire_sessions(now);
        assert(self@.clients == old(self)@.clients);
        assert(self@.tasks == old(self)@.tasks);
    }
}

proof fn lemma_expired_step(
    server: HttpServerView,
    now: u64,
    keys: Seq<u64>,
    n: int,
    before: Seq<u64>,
    after: Seq<u64>,
)
    requires
        0 <= n < keys.len(),
        keys.no_duplicates(),
        before.no_duplicates(),
        forall|i: int|
            0 <= i < before.len() ==> keys.take(n).contains(#[trigger] before[i])
                && server.is_expired(before[i], now),
        forall|j: int|
            0 <= j < n && server.is_expired(#[trigger] keys[j], now) ==> before.contains(keys[j]),
        after == if server.is_expired(keys[n], now) {
            before.push(keys[n])
        } else {
            before
        },
    ensures
        after.no_duplicates(),
        forall|i: int|
            0 <= i < after.len() ==> keys.take(n + 1).contains(#[trigger] after[i])
                && server.is_expired(after[i], now),
        forall|j: int|
            0 <= j < n + 1 && server.is_expired(#[trigger] keys[j], now) ==> after.contains(
                keys[j],
            ),
{
    let part = keys.take(n);
    let longer = keys.take(n + 1);
    assert forall|x: u64| #[trigger] part.contains(x) implies longer.contains(x) && x != keys[n] by {
        let j = part.index_of(x);
        assert(longer[j] == x);
    }
    assert(longer[n] == keys[n]);
    assert forall|i: int| 0 <= i < before.len() implies longer.contains(#[trigger] before[i])
        && before[i] != keys[n] by {
        assert(part.contains(before[i]));
    }
    assert forall|j: int| 0 <= j < n + 1 && server.is_expired(#[trigger] keys[j], now) implies after.contains(
        keys[j],
    ) by {
        if j < n {
            assert(before.contains(keys[j]));
            let i = before.index_of(keys[j]);
            assert(after[i] == keys[j]);
        } else {
            assert(after[after.len() - 1] == keys[n]);
        }
    }
}

/// What happens on a connection changes no other one, and no script.
pub proof fn law_connections_are_apart(
    before: HttpServerView,
    token: u64,
    stamp: Stamp,
    next: Next,
    after: HttpServerView,
    other: u64,
)
    requires
        processed(before, token, stamp, next, after),
        other != token,
    ensures
        after.clients.dom().contains(other) == before.clients.dom().contains(other),
        after.clients[other] == before.clients[other],
        after.tasks == before.tasks,
        after.configs == before.configs,
        after.listeners == before.listeners,
{
}

/// A connection that has ended leaves nothing behind: neither it nor its script is there, and
/// every other connection is as before.
pub proof fn law_ended_connection_is_gone(server: HttpServerView, token: u64, other: u64)
    requires
        server.wf(),
        other != token,
    ensures
        !server.without(token).clients.dom().contains(token),
        !server.without(token).tasks.dom().contains(token),
        server.without(token).clients.dom().contains(other) == server.clients.dom().contains(other),
        server.without(token).clients[other] == server.clients[other],
        server.without(token).tasks[other] == server.tasks[other],
{
}

/// A body above the limit of the server that the request is for is answered with status 413, by
/// that server, as soon as the head of the request has arrived and the length is known, however
/// long the body is and however much of it has arrived.
pub proof fn law_long_body_is_answered_413(
    configs: Seq<ServerView>,
    indices: Seq<usize>,
    input: Seq<u8>,
)
    requires
        oversized(input, configs, indices) is Some,
    ensures
        next_for(configs, indices, input) matches NextView::Reply { server, reply, .. } && server
            == oversized(input, configs, indices)->0 && reply.status() == 413,
{
    let none = Seq::<u8>::empty();
    if parse(input, MAX_HARD_REQUEST as int) is Complete {
        assert(input + none =~= input);
        law_early_refusal_is_right(input, none, configs, indices);
    }
}

} // verus!
