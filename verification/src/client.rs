//! The state of a connection: what has arrived, what is to be sent, and what comes next.

use crate::cgi::{elapsed, elapsed_between};
use crate::config::{server_views, ServerConfig, ServerView};
use crate::http::{
    announced, announced_host, announcement, law_announced_body_arrives,
    law_parse_ignores_what_follows, parse, ParseResult, ParseView, Request, RequestParser,
    RequestView,
};
use crate::reply::{failure, Reply, ReplyView};
use crate::response::{response_bytes, Response};
use crate::dispatch::{
    default_server_for_client, first_server, resolve_server_for_request, resolved, verdict,
    VerdictView,
};
use vstd::prelude::*;
use vstd::slice::{slice_subrange, slice_to_vec};

verus! {

/// The largest request that is read, in bytes.
pub const MAX_HARD_REQUEST: usize = 33_554_432;

/// How long a connection may be idle, in milliseconds.
pub const CLIENT_TIMEOUT: u64 = 15_000;

/// A connection. Times are in milliseconds of one clock.
pub struct Client {
    listener: usize,
    read_buf: Vec<u8>,
    parser: RequestParser,
    write_buf: Vec<u8>,
    write_pos: usize,
    close_after_write: bool,
    processing: bool,
    peer_closed: bool,
    last_active: u64,
}

/// What the state of a connection says.
#[verifier::ext_equal]
pub struct ClientView {
    /// The listener that the connection came through.
    pub listener: usize,
    /// What has arrived and has not been taken as a request.
    pub input: Seq<u8>,
    /// What is still to be sent.
    pub output: Seq<u8>,
    /// Whether the connection ends once everything is sent.
    pub close_after_write: bool,
    /// Whether a script is at work for the connection.
    pub processing: bool,
    /// Whether the peer is known to send nothing more.
    pub peer_closed: bool,
    /// When something last happened.
    pub last_active: u64,
}

impl View for Client {
    type V = ClientView;

    closed spec fn view(&self) -> ClientView {
        ClientView {
            listener: self.listener,
            input: self.read_buf@,
            output: self.write_buf@.skip(self.write_pos as int),
            close_after_write: self.close_after_write,
            processing: self.processing,
            peer_closed: self.peer_closed,
            last_active: self.last_active,
        }
    }
}

/// What a connection is ready for.
#[derive(Debug, Clone, Copy, PartialEq, Eq, Structural)]
pub struct Readiness {
    /// An error is pending.
    pub failed: bool,
    /// Both sides are closed.
    pub hung_up: bool,
    /// The peer sends nothing more.
    pub peer_closed: bool,
    pub readable: bool,
    pub writable: bool,
}

/// What to wait for on a connection.
#[derive(Debug, Clone, Copy, PartialEq, Eq, Structural)]
pub struct Interest {
    pub read: bool,
    pub write: bool,
    pub peer_close: bool,
}

/// What to do with a connection that is ready for something: at most one read or one write.
#[derive(Debug, Clone, Copy, PartialEq, Eq, Structural)]
pub enum Reaction {
    Ignore,
    Close,
    Read,
    Write,
}

/// What comes after a write.
#[derive(Debug, Clone, Copy, PartialEq, Eq, Structural)]
pub enum AfterWrite {
    /// More is to be sent.
    More,
    /// The connection is to be closed.
    Close,
    /// The next request can be worked on; whether some of it has arrived.
    Ready { buffered: bool },
}

impl ClientView {
    /// A connection on which nothing has happened.
    pub open spec fn fresh(listener: usize, now: u64) -> ClientView {
        ClientView {
            listener,
            input: Seq::empty(),
            output: Seq::empty(),
            close_after_write: false,
            processing: false,
            peer_closed: false,
            last_active: now,
        }
    }

    /// What to wait for.
    pub open spec fn interest(self) -> Interest {
        Interest {
            read: self.output.len() == 0 && !self.processing,
            write: self.output.len() > 0,
            peer_close: !self.peer_closed,
        }
    }

    /// What to do where the connection is ready for something.
    pub open spec fn reaction(self, ready: Readiness) -> Reaction {
        if ready.failed || ready.hung_up {
            Reaction::Close
        } else if self.processing {
            Reaction::Ignore
        } else if self.output.len() > 0 && ready.writable {
            Reaction::Write
        } else if ready.readable {
            Reaction::Read
        } else {
            Reaction::Ignore
        }
    }

    /// The state after bytes have arrived.
    pub open spec fn received(self, bytes: Seq<u8>, now: u64) -> ClientView {
        ClientView { input: self.input + bytes, last_active: now, ..self }
    }

    /// The state after a response was queued.
    pub open spec fn queued(self, bytes: Seq<u8>, keep_alive: bool, now: u64) -> ClientView {
        ClientView { output: bytes, close_after_write: !keep_alive, last_active: now, ..self }
    }

    /// The state after bytes were sent.
    pub open spec fn sent(self, n: int, now: u64) -> ClientView {
        ClientView {
            output: self.output.skip(n),
            close_after_write: self.close_after_write && n < self.output.len(),
            last_active: now,
            ..self
        }
    }

    /// What comes after `n` bytes were sent.
    pub open spec fn after_write(self, n: int) -> AfterWrite {
        if n < self.output.len() {
            AfterWrite::More
        } else if self.close_after_write {
            AfterWrite::Close
        } else {
            AfterWrite::Ready { buffered: self.input.len() > 0 }
        }
    }

    /// The connection has been idle for too long.
    pub open spec fn expired(self, now: u64) -> bool {
        !self.processing && elapsed(self.last_active, now) >= CLIENT_TIMEOUT
    }
}

/// What the input of a connection holds.
pub enum IntakeView {
    /// No complete request.
    Wait,
    /// Something that is refused; the connection ends after the reply.
    Refuse { server: usize, reply: ReplyView },
    /// A request, and the number of bytes that it takes.
    Request { request: RequestView, consumed: int },
}

/// The server that a request is for, where the head of the request has arrived and its body is
/// known to be longer than the server takes.
pub open spec fn oversized(
    input: Seq<u8>,
    configs: Seq<ServerView>,
    indices: Seq<usize>,
) -> Option<usize> {
    match announced_host(input) {
        None => None,
        Some(host) => match resolved(configs, indices, host) {
            None => None,
            Some(index) => if index < configs.len() && announced(input)
                > configs[index as int].client_max_body_size {
                Some(index)
            } else {
                None
            },
        },
    }
}

/// The refusal of a body that is too long.
pub open spec fn too_long(index: usize) -> IntakeView {
    IntakeView::Refuse {
        server: index,
        reply: failure(413, "request body exceeds configured limit"@),
    }
}

/// What the input of a connection holds, where the listener has the given servers. A body that is
/// longer than its server takes is refused as such, also where it is above the hard limit.
pub open spec fn intake(
    input: Seq<u8>,
    configs: Seq<ServerView>,
    indices: Seq<usize>,
) -> IntakeView {
    match parse(input, MAX_HARD_REQUEST as int) {
        ParseView::NeedMore => match oversized(input, configs, indices) {
            Some(index) => too_long(index),
            None => IntakeView::Wait,
        },
        ParseView::Error(message) => match oversized(input, configs, indices) {
            Some(index) => too_long(index),
            None => IntakeView::Refuse {
                server: match first_server(indices) {
                    Some(index) => index,
                    None => 0,
                },
                reply: failure(400, message),
            },
        },
        ParseView::Complete { request, consumed } => IntakeView::Request { request, consumed },
    }
}

/// What the input of a connection holds.
pub enum Intake {
    /// No complete request.
    Wait,
    /// Something that is refused; the connection ends after the reply.
    Refuse { server_index: usize, reply: Reply },
    /// A request.
    Request(Request),
}

impl Client {
    #[verifier::type_invariant]
    spec fn wf(self) -> bool {
        &&& self.write_pos <= self.write_buf@.len()
        &&& self.parser.resumes(self.read_buf@, MAX_HARD_REQUEST as int)
    }

    /// A connection that was just accepted.
    pub fn new(listener: usize, now: u64) -> (r: Client)
        ensures
            r@ == ClientView::fresh(listener, now),
    {
        let read_buf: Vec<u8> = Vec::new();
        let parser = RequestParser::new();
        proof {
            parser.lemma_fresh(MAX_HARD_REQUEST as int);
        }
        let r = Client {
            listener,
            read_buf,
            parser,
            write_buf: Vec::new(),
            write_pos: 0,
            close_after_write: false,
            processing: false,
            peer_closed: false,
            last_active: now,
        };
        assert(r@ =~= ClientView::fresh(listener, now));
        r
    }

    /// The listener that the connection came through.
    pub fn listener(&self) -> (r: usize)
        ensures
            r == self@.listener,
    {
        self.listener
    }

    /// Whether something is still to be sent.
    pub fn wants_write(&self) -> (r: bool)
        ensures
            r == (self@.output.len() > 0),
    {
        proof {
            use_type_invariant(self);
        }
        self.write_pos < self.write_buf.len()
    }

    /// What to wait for.
    pub fn interest(&self) -> (r: Interest)
        ensures
            r == self@.interest(),
    {
        let write = self.wants_write();
        Interest { read: !write && !self.processing, write, peer_close: !self.peer_closed }
    }

    /// What to do where the connection is ready for something. That the peer sends nothing more
    /// does not end the connection: what has arrived is still answered.
    pub fn react(&mut self, ready: Readiness) -> (r: Reaction)
        ensures
            r == old(self)@.reaction(ready),
            final(self)@ == (ClientView {
                peer_closed: old(self)@.peer_closed || ready.peer_closed,
                ..old(self)@
            }),
    {
        proof {
            use_type_invariant(&*self);
        }
        let write = self.wants_write();
        if ready.peer_closed {
            self.peer_closed = true;
        }
        if ready.failed || ready.hung_up {
            Reaction::Close
        } else if self.processing {
            Reaction::Ignore
        } else if write && ready.writable {
            Reaction::Write
        } else if ready.readable {
            Reaction::Read
        } else {
            Reaction::Ignore
        }
    }

    /// Takes in bytes that have arrived.
    pub fn receive(&mut self, bytes: &[u8], now: u64)
        ensures
            final(self)@ == old(self)@.received(bytes@, now),
    {
        proof {
            use_type_invariant(&*self);
        }
        let ghost before = self.read_buf@;
        let mut parser = RequestParser::new();
        proof {
            parser.lemma_fresh(MAX_HARD_REQUEST as int);
            self.parser.lemma_resumes_extend(before, bytes@, MAX_HARD_REQUEST as int);
        }
        std::mem::swap(&mut parser, &mut self.parser);
        let mut read_buf: Vec<u8> = Vec::new();
        std::mem::swap(&mut read_buf, &mut self.read_buf);
        read_buf.extend_from_slice(bytes);
        assert(read_buf@ =~= before + bytes@);
        self.read_buf = read_buf;
        self.parser = parser;
        self.last_active = now;
    }

    /// What is still to be sent.
    pub fn pending_output(&self) -> (r: &[u8])
        ensures
            r@ == self@.output,
    {
        proof {
            use_type_invariant(self);
        }
        let total: usize = self.write_buf.len();
        slice_subrange(self.write_buf.as_slice(), self.write_pos, total)
    }

    /// Takes note that bytes were sent, and says what comes next.
    pub fn write_once(&mut self, count: usize, now: u64) -> (r: AfterWrite)
        requires
            count <= old(self)@.output.len(),
        ensures
            r == old(self)@.after_write(count as int),
            final(self)@ == old(self)@.sent(count as int, now),
    {
        proof {
            use_type_invariant(&*self);
        }
        let ghost before = self@;
        let total: usize = self.write_buf.len();
        self.write_pos = self.write_pos + count;
        self.last_active = now;
        assert(self@.output =~= before.output.skip(count as int));
        if self.write_pos < total {
            return AfterWrite::More;
        }
        let close = self.close_after_write;
        self.write_pos = 0;
        self.write_buf = Vec::new();
        self.close_after_write = false;
        assert(self@.output =~= before.output.skip(count as int));
        if close {
            AfterWrite::Close
        } else {
            AfterWrite::Ready { buffered: self.read_buf.len() > 0 }
        }
    }

    /// Queues a response, dated `seconds` after the start of 1970.
    pub fn queue_response(
        &mut self,
        response: &Response,
        keep_alive: bool,
        seconds: u64,
        now: u64,
    )
        ensures
            final(self)@ == old(self)@.queued(
                response_bytes(response@, keep_alive, seconds as int),
                keep_alive,
                now,
            ),
    {
        proof {
            use_type_invariant(&*self);
        }
        let bytes = response.to_bytes_at(keep_alive, seconds);
        self.write_pos = 0;
        self.write_buf = bytes;
        self.close_after_write = !keep_alive;
        self.last_active = now;
        assert(self@.output =~= bytes@);
    }

    /// Takes note that a script is at work for the connection, or no longer is.
    pub fn set_processing(&mut self, processing: bool, now: u64)
        ensures
            final(self)@ == (ClientView { processing, last_active: now, ..old(self)@ }),
    {
        proof {
            use_type_invariant(&*self);
        }
        self.processing = processing;
        self.last_active = now;
    }

    /// Whether the connection has been idle for too long.
    pub fn expired(&self, now: u64) -> (r: bool)
        ensures
            r == self@.expired(now),
    {
        !self.processing && elapsed_between(self.last_active, now) >= CLIENT_TIMEOUT
    }

    /// Takes the next request out of the input, where it has arrived; what follows it stays. A
    /// request whose body is known to be too long is refused before all of it has arrived.
    pub fn next_request(&mut self, configs: &[ServerConfig], indices: &[usize]) -> (r: Intake)
        ensures
            match (r, intake(old(self)@.input, server_views(configs@), indices@)) {
                (Intake::Wait, IntakeView::Wait) => final(self)@ == old(self)@,
                (
                    Intake::Refuse { server_index, reply },
                    IntakeView::Refuse { server, reply: expected },
                ) => server_index == server && reply@ == expected && final(self)@ == old(self)@,
                (
                    Intake::Request(request),
                    IntakeView::Request { request: expected, consumed },
                ) => request@ == expected && 0 <= consumed <= old(self)@.input.len()
                    && final(self)@ == (ClientView {
                    input: old(self)@.input.skip(consumed),
                    ..old(self)@
                }),
                _ => false,
            },
    {
        proof {
            use_type_invariant(&*self);
        }
        let ghost views = server_views(configs@);
        let ghost limit = MAX_HARD_REQUEST as int;
        let mut parser = RequestParser::new();
        proof {
            parser.lemma_fresh(limit);
        }
        std::mem::swap(&mut parser, &mut self.parser);
        let total: usize = self.read_buf.len();
        match parser.advance(self.read_buf.as_slice(), MAX_HARD_REQUEST) {
            ParseResult::NeedMore => {
                let refused = refuse_early(&parser, configs, indices);
                assert(parser.stopped_at(self.read_buf@, MAX_HARD_REQUEST as int));
                self.parser = parser;
                match refused {
                    Some(server_index) => refuse_body(server_index),
                    None => Intake::Wait,
                }
            },
            ParseResult::Error(message) => {
                match refuse_length(self.read_buf.as_slice(), configs, indices) {
                    Some(server_index) => {
                        return refuse_body(server_index);
                    },
                    None => {},
                }
                let server_index: usize = match default_server_for_client(indices) {
                    Some(index) => index,
                    None => 0,
                };
                Intake::Refuse { server_index, reply: Reply::error(400, message.as_str()) }
            },
            ParseResult::Complete { request, consumed } => {
                let rest = slice_to_vec(
                    slice_subrange(self.read_buf.as_slice(), consumed, total),
                );
                assert(rest@ =~= self.read_buf@.skip(consumed as int));
                self.read_buf = rest;
                Intake::Request(request)
            },
        }
    }
}

fn refuse_body(server_index: usize) -> (r: Intake)
    ensures
        r matches Intake::Refuse { server_index: index, reply } && index == server_index && reply@
            == failure(413, "request body exceeds configured limit"@),
{
    Intake::Refuse {
        server_index,
        reply: Reply::error(413, "request body exceeds configured limit"),
    }
}

fn refuse_early(parser: &RequestParser, configs: &[ServerConfig], indices: &[usize]) -> (r: Option<
    usize,
>)
    ensures
        forall|input: Seq<u8>|
            #![trigger parser.stopped_at(input, MAX_HARD_REQUEST as int)]
            parser.stopped_at(input, MAX_HARD_REQUEST as int) ==> r == oversized(
                input,
                server_views(configs@),
                indices@,
            ),
{
    match parser.host_announced() {
        None => None,
        Some(host) => too_long_for(host, parser.body_announced() as u128, configs, indices),
    }
}

fn refuse_length(input: &[u8], configs: &[ServerConfig], indices: &[usize]) -> (r: Option<usize>)
    ensures
        r == oversized(input@, server_views(configs@), indices@),
{
    match announcement(input) {
        None => None,
        Some((host, length)) => too_long_for(host.as_str(), length, configs, indices),
    }
}

fn too_long_for(host: &str, length: u128, configs: &[ServerConfig], indices: &[usize]) -> (r:
    Option<usize>)
    ensures
        r == match resolved(server_views(configs@), indices@, host@) {
            None => None,
            Some(index) => if index < configs@.len() && length
                > configs@[index as int].client_max_body_size {
                Some(index)
            } else {
                None
            },
        },
{
    let ghost views = server_views(configs@);
    match resolve_server_for_request(configs, indices, host) {
        None => None,
        Some(index) => {
            if index >= configs.len() {
                return None;
            }
            assert(views[index as int] == configs@[index as int]@);
            if length > configs[index].client_max_body_size as u128 {
                Some(index)
            } else {
                None
            }
        },
    }
}

/// A body that is refused before it has arrived would have been refused afterwards too: whatever
/// follows, a request that the input becomes is answered by the same server, with status 413.
pub proof fn law_early_refusal_is_right(
    input: Seq<u8>,
    more: Seq<u8>,
    configs: Seq<ServerView>,
    indices: Seq<usize>,
)
    requires
        oversized(input, configs, indices) is Some,
        parse(input + more, MAX_HARD_REQUEST as int) is Complete,
    ensures
        verdict(
            configs,
            indices,
            parse(input + more, MAX_HARD_REQUEST as int)->request,
        ) matches VerdictView::Reply { server, reply, .. } && server == oversized(
            input,
            configs,
            indices,
        )->0 && reply.status() == 413,
{
    law_announced_body_arrives(input, more, MAX_HARD_REQUEST as int);
}

/// Requests that arrive together are taken one after the other: where the input holds a request
/// and then the start of another, the first is taken and the rest is kept, however the input was
/// cut up when it arrived.
pub proof fn law_pipelined_input_is_kept(
    first: Seq<u8>,
    rest: Seq<u8>,
    configs: Seq<ServerView>,
    indices: Seq<usize>,
)
    requires
        first.len() + rest.len() <= MAX_HARD_REQUEST,
        parse(first, MAX_HARD_REQUEST as int) matches ParseView::Complete { consumed, .. }
            && consumed == first.len(),
    ensures
        intake(first + rest, configs, indices) == (IntakeView::Request {
            request: parse(first, MAX_HARD_REQUEST as int)->request,
            consumed: first.len() as int,
        }),
        (first + rest).skip(first.len() as int) == rest,
{
    law_parse_ignores_what_follows(first, rest, MAX_HARD_REQUEST as int);
    assert((first + rest).skip(first.len() as int) =~= rest);
}

/// Everything that is queued is sent, in order and once, however the writes cut it up; the
/// connection is closed after the last byte exactly where it is not to be kept.
pub proof fn law_output_is_sent_in_order(client: ClientView, n: int, now: u64)
    requires
        0 <= n <= client.output.len(),
    ensures
        client.output.take(n) + client.sent(n, now).output == client.output,
        client.after_write(n) is More <==> client.sent(n, now).output.len() > 0,
        n == client.output.len() ==> (client.after_write(n) is Close <==> client.close_after_write),
        client.sent(n, now).input == client.input,
{
    assert(client.output.take(n) + client.output.skip(n) =~= client.output);
}

/// That the peer sends nothing more does not end a connection: with a response to send, the next
/// event that allows it is a write; and the connection no longer waits for the peer to close.
pub proof fn law_half_close_keeps_the_response(client: ClientView, ready: Readiness)
    requires
        client.output.len() > 0,
        !client.processing,
        ready.peer_closed,
        ready.writable,
        !ready.failed,
        !ready.hung_up,
    ensures
        client.reaction(ready) is Write,
        !(ClientView { peer_closed: true, ..client }).interest().peer_close,
{
}

/// A connection is read only where it can be read, and written only where it can be written and
/// something is to be sent; while a script is at work for it, neither happens.
pub proof fn law_transfers_do_not_block(client: ClientView, ready: Readiness)
    ensures
        client.reaction(ready) is Read ==> ready.readable && !client.processing,
        client.reaction(ready) is Write ==> ready.writable && !client.processing
            && client.output.len() > 0,
{
}

} // verus!
