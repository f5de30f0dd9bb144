//! CGI: what a script is given, the exchange with its process, and the response that its output
//! stands for.

use crate::chunk::{crlf_crlf, find_bytes};
use crate::http::{result_view, Request, RequestView};
use crate::number::{decimal, decimal_text, number, parse_number, push_number};
use crate::response::{fields, plain, reason, reason_phrase, Response, ResponseView};
use crate::text::{
    find, law_text_is_shown_as_written, lemma_find_extend, lemma_find_from, lines, lines_slice,
    matches_ignoring_case, push_chars, same_ignoring_case, show_bytes, shown_text, split_once,
    split_once_slice, texts, to_chars, to_text, trim, trim_end, trim_end_slice, trim_slice, words,
    words_slice, CharSet,
};
use crate::util::{html_escape, html_text};
use vstd::prelude::*;
use vstd::slice::{slice_subrange, slice_to_vec};
use vstd::utf8::encode_utf8;

verus! {

// The output of a script

/// An empty line that ends in a line feed alone.
pub open spec fn lf_lf() -> Seq<u8> {
    seq![10u8, 10u8]
}

/// The head and the body of a script's output.
pub open spec fn output_parts(output: Seq<u8>) -> Option<(Seq<u8>, Seq<u8>)> {
    match find(output, crlf_crlf()) {
        Some(p) => Some((output.take(p), output.skip(p + 4))),
        None => match find(output, lf_lf()) {
            Some(p) => Some((output.take(p), output.skip(p + 2))),
            None => None,
        },
    }
}

/// The status and the headers of a response.
#[verifier::ext_equal]
pub struct OutputHead {
    pub status: int,
    pub headers: Seq<(Seq<char>, Seq<char>)>,
}

/// The head after one more line.
pub open spec fn output_line(h: OutputHead, raw: Seq<char>) -> Result<OutputHead, Seq<char>> {
    let line = trim_end(raw, CharSet::Only('\r'));
    if trim(line).len() == 0 {
        Ok(h)
    } else {
        match split_once(line, ':') {
            None => Err("malformed CGI header `"@ + line + "`"@),
            Some((name, value)) => if same_ignoring_case(name, "Status"@) {
                let parts = words(value, CharSet::Space);
                if parts.len() == 0 {
                    Err("empty CGI Status header"@)
                } else {
                    match number(parts[0], 10, u16::MAX as int) {
                        None => Err("invalid CGI status `"@ + value + "`"@),
                        Some(status) => Ok(OutputHead { status, ..h }),
                    }
                }
            } else {
                Ok(OutputHead { headers: h.headers.push((trim(name), trim(value))), ..h })
            },
        }
    }
}

/// The head after more lines.
pub open spec fn output_lines(h: OutputHead, lines: Seq<Seq<char>>) -> Result<OutputHead, Seq<char>>
    decreases lines.len(),
{
    if lines.len() == 0 {
        Ok(h)
    } else {
        match output_line(h, lines[0]) {
            Err(m) => Err(m),
            Ok(next) => output_lines(next, lines.skip(1)),
        }
    }
}

/// The response that a head and a body stand for.
pub open spec fn output_response(head: Seq<char>, body: Seq<u8>) -> Result<
    ResponseView,
    Seq<char>,
> {
    match output_lines(OutputHead { status: 200, headers: Seq::empty() }, lines(head)) {
        Err(m) => Err(m),
        Ok(h) => if 100 <= h.status < 600 {
            Ok(ResponseView { status: h.status as u16, headers: h.headers, body })
        } else {
            Err("invalid CGI status "@ + decimal(h.status))
        },
    }
}

fn quoted(before: &str, text: &[char]) -> (r: String)
    ensures
        r@ == before@ + text@ + "`"@,
{
    let mut m = before.to_owned();
    push_chars(&mut m, text);
    m.append("`");
    m
}

fn read_line(status: &mut u16, headers: &mut Vec<(String, String)>, raw: &[char]) -> (r: Result<
    (),
    String,
>)
    ensures
        match r {
            Ok(_) => output_line(
                OutputHead { status: *old(status) as int, headers: fields(old(headers)@) },
                raw@,
            ) == Ok::<OutputHead, Seq<char>>(
                OutputHead { status: *final(status) as int, headers: fields(final(headers)@) },
            ),
            Err(m) => output_line(
                OutputHead { status: *old(status) as int, headers: fields(old(headers)@) },
                raw@,
            ) == Err::<OutputHead, Seq<char>>(m@),
        },
{
    let line = trim_end_slice(raw, CharSet::Only('\r'));
    if trim_slice(line).len() == 0 {
        return Ok(());
    }
    match split_once_slice(line, ':') {
        None => Err(quoted("malformed CGI header `", line)),
        Some((name, value)) => {
            if matches_ignoring_case(name, "Status") {
                let parts = words_slice(value, CharSet::Space);
                if parts.len() == 0 {
                    return Err("empty CGI Status header".to_owned());
                }
                assert(texts(parts@)[0] == parts@[0]@);
                match parse_number(parts[0], 10, 65535) {
                    None => {
                        return Err(quoted("invalid CGI status `", value));
                    },
                    Some(code) => {
                        *status = code as u16;
                    },
                }
            } else {
                let field = (to_text(trim_slice(name)), to_text(trim_slice(value)));
                assert(fields(headers@.push(field)) =~= fields(headers@).push(
                    (field.0@, field.1@),
                ));
                headers.push(field);
            }
            Ok(())
        },
    }
}

/// The response that the head of a script's output, as text, and the body stand for.
pub fn response_from_output(head: &str, body: &[u8]) -> (r: Result<Response, String>)
    ensures
        result_view(r) == output_response(head@, body@),
{
    let chars = to_chars(head);
    let all = lines_slice(chars.as_slice());
    let ghost t = lines(head@);
    let mut status: u16 = 200;
    let mut headers: Vec<(String, String)> = Vec::new();
    let ghost start = OutputHead { status: 200, headers: Seq::empty() };
    assert(fields(headers@) =~= start.headers);
    assert(t.skip(0) =~= t);
    let mut i: usize = 0;
    while i < all.len()
        invariant
            0 <= i <= all@.len(),
            t == texts(all@),
            output_lines(start, t) == output_lines(
                OutputHead { status: status as int, headers: fields(headers@) },
                t.skip(i as int),
            ),
            t == lines(head@),
            start == (OutputHead { status: 200, headers: Seq::empty() }),
        decreases all.len() - i,
    {
        assert(t.skip(i as int)[0] == all@[i as int]@);
        assert(t.skip(i as int).skip(1) =~= t.skip(i + 1));
        match read_line(&mut status, &mut headers, all[i]) {
            Err(m) => {
                return Err(m);
            },
            Ok(_) => {},
        }
        i = i + 1;
    }
    if status < 100 || status >= 600 {
        let mut m = "invalid CGI status ".to_owned();
        push_number(&mut m, status as u128, 10);
        return Err(m);
    }
    let mut response = Response::new(status, slice_to_vec(body));
    response.headers = headers;
    Ok(response)
}

/// The response that a script's output stands for.
pub fn parse_cgi_output(bytes: &[u8]) -> (r: Result<Response, String>)
    ensures
        match output_parts(bytes@) {
            Some((head, body)) => result_view(r) == output_response(shown_text(head), body),
            None => r is Err && r->Err_0@ == "CGI did not emit a header/body separator"@,
        },
{
    let total: usize = bytes.len();
    let long: [u8; 4] = [13, 10, 13, 10];
    let short: [u8; 2] = [10, 10];
    assert(long@ =~= crlf_crlf());
    assert(short@ =~= lf_lf());
    let (end, start): (usize, usize) = match find_bytes(bytes, long.as_slice()) {
        Some(p) => (p, p + 4),
        None => match find_bytes(bytes, short.as_slice()) {
            Some(p) => (p, p + 2),
            None => {
                return Err("CGI did not emit a header/body separator".to_owned());
            },
        },
    };
    let head = show_bytes(slice_subrange(bytes, 0, end));
    response_from_output(head.as_str(), slice_subrange(bytes, start, total))
}

/// The page for a failed script.
pub open spec fn failure_page(status: u16, message: Seq<char>) -> Seq<char> {
    "<!doctype html><html><body><h1>"@ + decimal(status as int) + " "@ + reason(status)
        + "</h1><p>"@ + html_text(message) + "</p></body></html>"@
}

/// The response for a failed script.
pub fn cgi_error_response(status: u16, message: &str) -> (r: Response)
    ensures
        r@ == plain(status, encode_utf8(failure_page(status, message@))).with(
            "Content-Type"@,
            "text/html; charset=utf-8"@,
        ),
{
    let mut page = "<!doctype html><html><body><h1>".to_owned();
    push_number(&mut page, status as u128, 10);
    page.append(" ");
    page.append(reason_phrase(status));
    page.append("</h1><p>");
    page.append(html_escape(message).as_str());
    page.append("</p></body></html>");
    assert(page@ =~= failure_page(status, message@));
    Response::new(status, slice_to_vec(page.as_str().as_bytes())).header(
        "Content-Type",
        "text/html; charset=utf-8",
    )
}


// The process

/// The script that a request runs.
#[derive(Debug)]
pub struct CgiSpec {
    pub interpreter: String,
    pub script: String,
    pub path_info: String,
}

#[verifier::ext_equal]
pub struct CgiSpecView {
    pub interpreter: Seq<char>,
    pub script: Seq<char>,
    pub path_info: Seq<char>,
}

impl View for CgiSpec {
    type V = CgiSpecView;

    open spec fn view(&self) -> CgiSpecView {
        CgiSpecView {
            interpreter: self.interpreter@,
            script: self.script@,
            path_info: self.path_info@,
        }
    }
}

impl Clone for CgiSpec {
    fn clone(&self) -> (r: CgiSpec)
        ensures
            r@ == self@,
    {
        CgiSpec {
            interpreter: self.interpreter.clone(),
            script: self.script.clone(),
            path_info: self.path_info.clone(),
        }
    }
}

/// What a script is started for.
pub struct CgiLaunch<'a> {
    pub client_fd: i32,
    pub server_index: usize,
    pub spec: &'a CgiSpec,
    pub request: &'a Request,
    pub server_port: u16,
    pub keep_alive: bool,
}

/// The variables that every script is given, where `script_path` is the absolute path of the
/// script.
pub open spec fn common_variables(
    spec: CgiSpecView,
    request: RequestView,
    port: u16,
    script_path: Seq<char>,
) -> Seq<(Seq<char>, Seq<char>)> {
    seq![
        ("GATEWAY_INTERFACE"@, "CGI/1.1"@),
        ("SERVER_PROTOCOL"@, request.version),
        ("SERVER_SOFTWARE"@, "localhost/0.1"@),
        ("REQUEST_METHOD"@, request.method),
        ("REQUEST_URI"@, request.target),
        ("QUERY_STRING"@, request.query),
        ("PATH_INFO"@, spec.path_info),
        ("SCRIPT_FILENAME"@, script_path),
        ("SCRIPT_NAME"@, spec.script),
        ("CONTENT_LENGTH"@, decimal(request.body.len() as int)),
        ("SERVER_PORT"@, decimal(port as int)),
        ("HTTP_HOST"@, request.host()),
    ]
}

/// The variable with the value of a header, where the request has it.
pub open spec fn header_variable(request: RequestView, variable: Seq<char>, name: Seq<char>) -> Seq<
    (Seq<char>, Seq<char>),
> {
    match request.field(name) {
        Some(value) => seq![(variable, value)],
        None => Seq::empty(),
    }
}

/// The variables that a script is given.
pub open spec fn variables(
    spec: CgiSpecView,
    request: RequestView,
    port: u16,
    script_path: Seq<char>,
) -> Seq<(Seq<char>, Seq<char>)> {
    common_variables(spec, request, port, script_path) + header_variable(
        request,
        "CONTENT_TYPE"@,
        "content-type"@,
    ) + header_variable(request, "HTTP_COOKIE"@, "cookie"@)
}

fn push_variable(out: &mut Vec<(String, String)>, name: &str, value: &str)
    ensures
        fields(final(out)@) == fields(old(out)@).push((name@, value@)),
{
    let ghost before = out@;
    out.push((name.to_owned(), value.to_owned()));
    assert(fields(out@) =~= fields(before).push((name@, value@)));
}

fn push_header_variable(
    out: &mut Vec<(String, String)>,
    request: &Request,
    variable: &str,
    name: &str,
)
    ensures
        fields(final(out)@) == fields(old(out)@) + header_variable(request@, variable@, name@),
{
    match request.header(name) {
        Some(value) => {
            push_variable(out, variable, value);
        },
        None => {},
    }
}

impl<'a> CgiLaunch<'a> {
    fn common_environment(&self, script_path: &str) -> (r: Vec<(String, String)>)
        ensures
            fields(r@) == common_variables(self.spec@, self.request@, self.server_port, script_path@),
    {
        let request = self.request;
        let mut out: Vec<(String, String)> = Vec::new();
        push_variable(&mut out, "GATEWAY_INTERFACE", "CGI/1.1");
        push_variable(&mut out, "SERVER_PROTOCOL", request.version.as_str());
        push_variable(&mut out, "SERVER_SOFTWARE", "localhost/0.1");
        push_variable(&mut out, "REQUEST_METHOD", request.method.as_str());
        push_variable(&mut out, "REQUEST_URI", request.target.as_str());
        push_variable(&mut out, "QUERY_STRING", request.query.as_str());
        push_variable(&mut out, "PATH_INFO", self.spec.path_info.as_str());
        push_variable(&mut out, "SCRIPT_FILENAME", script_path);
        push_variable(&mut out, "SCRIPT_NAME", self.spec.script.as_str());
        let length = decimal_text(request.body.len() as u128);
        push_variable(&mut out, "CONTENT_LENGTH", length.as_str());
        let port = decimal_text(self.server_port as u128);
        push_variable(&mut out, "SERVER_PORT", port.as_str());
        push_variable(&mut out, "HTTP_HOST", request.host());
        assert(fields(out@) =~= common_variables(
            self.spec@,
            self.request@,
            self.server_port,
            script_path@,
        ));
        out
    }

    /// The variables that the script is given, where `script_path` is its absolute path.
    pub fn environment(&self, script_path: &str) -> (r: Vec<(String, String)>)
        ensures
            fields(r@) == variables(self.spec@, self.request@, self.server_port, script_path@),
    {
        let mut out = self.common_environment(script_path);
        push_header_variable(&mut out, self.request, "CONTENT_TYPE", "content-type");
        push_header_variable(&mut out, self.request, "HTTP_COOKIE", "cookie");
        out
    }
}

/// Why a read or a write did not take place.
#[derive(Debug, Clone, Copy, PartialEq, Eq, Structural)]
pub enum IoFailure {
    WouldBlock,
    BrokenPipe,
    ConnectionReset,
    NotConnected,
    Other,
}

/// The failure says that the other side takes no more input.
pub open spec fn input_closed_failure(f: IoFailure) -> bool {
    f is BrokenPipe || f is ConnectionReset || f is NotConnected
}

/// What a read from a script is taken as: a failure which says that the script has gone is the end
/// of its output.
pub open spec fn stream_read(outcome: Result<Seq<u8>, IoFailure>) -> Result<Seq<u8>, IoFailure> {
    match outcome {
        Ok(bytes) => Ok(bytes),
        Err(f) => if input_closed_failure(f) {
            Ok(Seq::empty())
        } else {
            Err(f)
        },
    }
}

/// Whether the failure says that the other side takes no more input.
pub fn cgi_input_closed_error(failure: IoFailure) -> (r: bool)
    ensures
        r == input_closed_failure(failure),
{
    failure == IoFailure::BrokenPipe || failure == IoFailure::ConnectionReset || failure
        == IoFailure::NotConnected
}

/// What is to be done next with the input of a script.
#[derive(Debug, Clone, Copy, PartialEq, Eq, Structural)]
pub enum InputStep {
    /// Nothing.
    Idle,
    /// Write the input that is left.
    Send,
    /// Close the input, so that the script sees its end.
    Shutdown,
}

/// What is known of a script's process.
#[derive(Debug, Clone, Copy, PartialEq, Eq, Structural)]
pub enum ChildStatus {
    Running,
    Succeeded,
    Failed,
}

/// What to do with a script's stream, or what to wait for on it.
#[derive(Debug, Clone, Copy, PartialEq, Eq, Structural)]
pub struct StreamWork {
    pub read: bool,
    pub write: bool,
}

/// How a script ended.
#[derive(Debug, Clone, Copy, PartialEq, Eq, Structural)]
pub enum CgiEnd {
    TimedOut,
    Failed,
    Finished,
}

/// The exchange with a running script. Times are in milliseconds of one clock.
#[derive(Debug)]
pub struct CgiTask {
    pub server_index: usize,
    pub input: Vec<u8>,
    pub input_pos: usize,
    pub output: Vec<u8>,
    pub started: u64,
    pub timeout: u64,
    pub keep_alive: bool,
    pub io_generation: u32,
    pub input_closed: bool,
    pub io_eof: bool,
    pub process_exited: bool,
}

#[verifier::ext_equal]
pub struct CgiTaskView {
    pub server_index: usize,
    pub input: Seq<u8>,
    pub input_pos: int,
    pub output: Seq<u8>,
    pub started: u64,
    pub timeout: u64,
    pub keep_alive: bool,
    pub io_generation: u32,
    pub input_closed: bool,
    pub io_eof: bool,
    pub process_exited: bool,
}

impl View for CgiTask {
    type V = CgiTaskView;

    open spec fn view(&self) -> CgiTaskView {
        CgiTaskView {
            server_index: self.server_index,
            input: self.input@,
            input_pos: self.input_pos as int,
            output: self.output@,
            started: self.started,
            timeout: self.timeout,
            keep_alive: self.keep_alive,
            io_generation: self.io_generation,
            input_closed: self.input_closed,
            io_eof: self.io_eof,
            process_exited: self.process_exited,
        }
    }
}

/// The time between two readings of a clock; none where the later one is not later.
pub open spec fn elapsed(since: u64, now: u64) -> int {
    if now >= since {
        now - since
    } else {
        0
    }
}

/// The time between two readings of a clock; none where the later one is not later.
pub fn elapsed_between(since: u64, now: u64) -> (r: u64)
    ensures
        r == elapsed(since, now),
{
    if now >= since {
        now - since
    } else {
        0
    }
}

/// How long a script may run, in milliseconds.
pub const CGI_TIMEOUT: u64 = 5000;

/// The state of a script that has just been started.
pub open spec fn started_task(
    server_index: usize,
    body: Seq<u8>,
    keep_alive: bool,
    now: u64,
) -> CgiTaskView {
    CgiTaskView {
        server_index,
        input: body,
        input_pos: 0,
        output: Seq::empty(),
        started: now,
        timeout: CGI_TIMEOUT,
        keep_alive,
        io_generation: 0,
        input_closed: false,
        io_eof: false,
        process_exited: false,
    }
}

impl CgiTaskView {
    /// No more of the input has been written than there is.
    pub open spec fn wf(self) -> bool {
        0 <= self.input_pos <= self.input.len()
    }

    /// There is input left to write, and the script takes it.
    pub open spec fn wants_write(self) -> bool {
        !self.input_closed && self.input_pos < self.input.len()
    }

    /// What is to be done next with the input.
    pub open spec fn input_step(self) -> InputStep {
        if self.io_eof || self.input_closed {
            InputStep::Idle
        } else if self.input_pos < self.input.len() {
            InputStep::Send
        } else {
            InputStep::Shutdown
        }
    }

    /// What to wait for on the stream.
    pub open spec fn interest(self) -> StreamWork {
        StreamWork { read: !self.io_eof, write: !self.io_eof && self.wants_write() }
    }

    /// The script has run for as long as it may.
    pub open spec fn timed_out(self, now: u64) -> bool {
        elapsed(self.started, now) >= self.timeout
    }

    /// The state after the input was shut down.
    pub open spec fn after_shutdown(self, outcome: Result<(), IoFailure>) -> CgiTaskView {
        match outcome {
            Ok(_) => CgiTaskView { input_closed: true, ..self },
            Err(f) => if input_closed_failure(f) {
                CgiTaskView { input_closed: true, ..self }
            } else {
                self
            },
        }
    }

    /// The state after a write.
    pub open spec fn after_write(self, outcome: Result<usize, IoFailure>) -> CgiTaskView {
        match outcome {
            Ok(n) => if n == 0 {
                CgiTaskView { input_closed: true, ..self }
            } else {
                CgiTaskView { input_pos: self.input_pos + n, ..self }
            },
            Err(f) => if input_closed_failure(f) {
                CgiTaskView { input_closed: true, ..self }
            } else {
                self
            },
        }
    }

    /// The state after a read.
    pub open spec fn after_read(self, outcome: Result<Seq<u8>, IoFailure>) -> CgiTaskView {
        match outcome {
            Ok(bytes) => if bytes.len() == 0 {
                CgiTaskView { io_eof: true, ..self }
            } else {
                CgiTaskView { output: self.output + bytes, ..self }
            },
            Err(_) => self,
        }
    }

    /// The state after a look at the process.
    pub open spec fn after_poll(self, status: ChildStatus) -> CgiTaskView {
        CgiTaskView { process_exited: self.process_exited || status is Succeeded, ..self }
    }

    /// How the script ended, where it did: it is over when its time is up, when it fails, or when
    /// it has succeeded and all its output has been read.
    pub open spec fn end(self, status: ChildStatus, now: u64) -> Option<CgiEnd> {
        if self.timed_out(now) {
            Some(CgiEnd::TimedOut)
        } else if self.process_exited || status is Succeeded {
            if self.io_eof {
                Some(CgiEnd::Finished)
            } else {
                None
            }
        } else if status is Failed {
            Some(CgiEnd::Failed)
        } else {
            None
        }
    }
}

impl CgiTask {
    /// The state of a script that is started now.
    pub fn start(launch: &CgiLaunch, now: u64) -> (r: CgiTask)
        ensures
            r@ == started_task(launch.server_index, launch.request@.body, launch.keep_alive, now),
            r@.wf(),
    {
        CgiTask {
            server_index: launch.server_index,
            input: launch.request.body.clone(),
            input_pos: 0,
            output: Vec::new(),
            started: now,
            timeout: CGI_TIMEOUT,
            keep_alive: launch.keep_alive,
            io_generation: 0,
            input_closed: false,
            io_eof: false,
            process_exited: false,
        }
    }

    /// Whether the script has run for as long as it may.
    pub fn timed_out(&self, now: u64) -> (r: bool)
        ensures
            r == self@.timed_out(now),
    {
        elapsed_between(self.started, now) >= self.timeout
    }

    /// Whether there is input left to write, and the script takes it.
    pub fn wants_write(&self) -> (r: bool)
        ensures
            r == self@.wants_write(),
    {
        !self.input_closed && self.input_pos < self.input.len()
    }

    /// What to wait for on the stream.
    pub fn interest(&self) -> (r: StreamWork)
        ensures
            r == self@.interest(),
    {
        StreamWork { read: !self.io_eof, write: !self.io_eof && self.wants_write() }
    }

    /// What to do with the stream where it is ready: what it is ready for, of what is waited for.
    pub fn react(&self, readable: bool, writable: bool) -> (r: StreamWork)
        ensures
            r == (StreamWork {
                read: readable && self@.interest().read,
                write: writable && self@.interest().write,
            }),
    {
        let wanted = self.interest();
        StreamWork { read: readable && wanted.read, write: writable && wanted.write }
    }

    /// What is to be done next with the input. Where the script's side of the stream has ended, no
    /// more input is written.
    pub fn next_input(&mut self) -> (r: InputStep)
        ensures
            r == old(self)@.input_step(),
            final(self)@ == (CgiTaskView {
                input_closed: old(self)@.input_closed || old(self)@.io_eof,
                ..old(self)@
            }),
    {
        if self.io_eof {
            self.input_closed = true;
            return InputStep::Idle;
        }
        if self.wants_write() {
            InputStep::Send
        } else if self.input_closed {
            InputStep::Idle
        } else {
            InputStep::Shutdown
        }
    }

    /// The input that is left to write.
    pub fn remaining_input(&self) -> (r: &[u8])
        requires
            self@.wf(),
        ensures
            r@ == self@.input.skip(self@.input_pos),
    {
        let total: usize = self.input.len();
        slice_subrange(self.input.as_slice(), self.input_pos, total)
    }

    /// Takes note of how closing the input went.
    pub fn close_input(&mut self, outcome: Result<(), IoFailure>) -> (r: Result<(), IoFailure>)
        ensures
            final(self)@ == old(self)@.after_shutdown(outcome),
            r == match outcome {
                Ok(_) => Ok::<(), IoFailure>(()),
                Err(f) => if input_closed_failure(f) {
                    Ok(())
                } else {
                    Err(f)
                },
            },
    {
        match outcome {
            Ok(_) => {
                self.input_closed = true;
                Ok(())
            },
            Err(failure) => {
                if cgi_input_closed_error(failure) {
                    self.input_closed = true;
                    Ok(())
                } else {
                    Err(failure)
                }
            },
        }
    }

    /// Takes note of how a write went, and says whether the input is now to be closed.
    pub fn write_once(&mut self, outcome: Result<usize, IoFailure>) -> (r: Result<
        InputStep,
        IoFailure,
    >)
        requires
            old(self)@.wf(),
            outcome matches Ok(n) ==> old(self)@.input_pos + n <= old(self)@.input.len(),
        ensures
            final(self)@ == old(self)@.after_write(outcome),
            final(self)@.wf(),
            r == match outcome {
                Ok(n) => if n > 0 && final(self)@.input_pos == final(self)@.input.len()
                    && !final(self)@.input_closed {
                    Ok::<InputStep, IoFailure>(InputStep::Shutdown)
                } else {
                    Ok(InputStep::Idle)
                },
                Err(f) => if f is WouldBlock || input_closed_failure(f) {
                    Ok(InputStep::Idle)
                } else {
                    Err(f)
                },
            },
    {
        match outcome {
            Ok(count) => {
                if count == 0 {
                    self.input_closed = true;
                    return Ok(InputStep::Idle);
                }
                let total: usize = self.input.len();
                self.input_pos = self.input_pos + count;
                if self.input_pos == total && !self.input_closed {
                    return Ok(InputStep::Shutdown);
                }
                Ok(InputStep::Idle)
            },
            Err(failure) => {
                if failure == IoFailure::WouldBlock {
                    Ok(InputStep::Idle)
                } else if cgi_input_closed_error(failure) {
                    self.input_closed = true;
                    Ok(InputStep::Idle)
                } else {
                    Err(failure)
                }
            },
        }
    }

    /// Takes in what a read gave; nothing at all is the end of the output.
    pub fn read_once(&mut self, outcome: Result<&[u8], IoFailure>) -> (r: Result<(), IoFailure>)
        ensures
            final(self)@ == old(self)@.after_read(
                match outcome {
                    Ok(bytes) => Ok(bytes@),
                    Err(f) => Err(f),
                },
            ),
            r == match outcome {
                Ok(_) => Ok::<(), IoFailure>(()),
                Err(f) => if f is WouldBlock {
                    Ok(())
                } else {
                    Err(f)
                },
            },
    {
        match outcome {
            Ok(bytes) => {
                if bytes.len() == 0 {
                    self.io_eof = true;
                } else {
                    let ghost before = self.output@;
                    self.output.extend_from_slice(bytes);
                    assert(self.output@ =~= before + bytes@);
                }
                Ok(())
            },
            Err(failure) => {
                if failure == IoFailure::WouldBlock {
                    Ok(())
                } else {
                    Err(failure)
                }
            },
        }
    }

    /// Takes note of what is known of the process, and says how the script ended, where it did.
    pub fn poll(&mut self, status: ChildStatus, now: u64) -> (r: Option<CgiEnd>)
        ensures
            r == old(self)@.end(status, now),
            final(self)@ == old(self)@.after_poll(status),
    {
        if status == ChildStatus::Succeeded {
            self.process_exited = true;
        }
        if self.timed_out(now) {
            Some(CgiEnd::TimedOut)
        } else if self.process_exited {
            if self.io_eof {
                Some(CgiEnd::Finished)
            } else {
                None
            }
        } else if status == ChildStatus::Failed {
            Some(CgiEnd::Failed)
        } else {
            None
        }
    }
}

/// The input that a series of writes hands over, each of the given size.
pub open spec fn written(task: CgiTaskView, counts: Seq<usize>) -> Seq<u8>
    decreases counts.len(),
{
    if counts.len() == 0 {
        Seq::empty()
    } else {
        task.input.subrange(task.input_pos, task.input_pos + counts[0]) + written(
            task.after_write(Ok(counts[0])),
            counts.skip(1),
        )
    }
}

/// The state after a series of writes.
pub open spec fn after_writes(task: CgiTaskView, counts: Seq<usize>) -> CgiTaskView
    decreases counts.len(),
{
    if counts.len() == 0 {
        task
    } else {
        after_writes(task.after_write(Ok(counts[0])), counts.skip(1))
    }
}

/// Every write of a series takes at least one byte and no more than what is left.
pub open spec fn writes_fit(task: CgiTaskView, counts: Seq<usize>) -> bool
    decreases counts.len(),
{
    counts.len() == 0 || (0 < counts[0] <= task.input.len() - task.input_pos && writes_fit(
        task.after_write(Ok(counts[0])),
        counts.skip(1),
    ))
}

/// However the input is cut up into writes, the script gets the request body, from the start and
/// in order; and the step that follows the writes closes the input exactly when all of the body
/// has been handed over.
pub proof fn law_script_gets_the_body(task: CgiTaskView, counts: Seq<usize>)
    requires
        task.wf(),
        !task.input_closed,
        !task.io_eof,
        writes_fit(task, counts),
    ensures
        after_writes(task, counts).wf(),
        task.input.take(task.input_pos) + written(task, counts) == task.input.take(
            after_writes(task, counts).input_pos,
        ),
        after_writes(task, counts).input_step() is Shutdown <==> task.input.take(task.input_pos)
            + written(task, counts) == task.input,
    decreases counts.len(),
{
    if counts.len() == 0 {
        assert(task.input.take(task.input_pos) + written(task, counts) =~= task.input.take(
            task.input_pos,
        ));
        lemma_take_all(task.input, task.input_pos);
    } else {
        let next = task.after_write(Ok(counts[0]));
        law_script_gets_the_body(next, counts.skip(1));
        let step = task.input.subrange(task.input_pos, task.input_pos + counts[0]);
        assert(task.input.take(task.input_pos) + step =~= next.input.take(next.input_pos));
        assert(task.input.take(task.input_pos) + (step + written(next, counts.skip(1)))
            =~= task.input.take(task.input_pos) + step + written(next, counts.skip(1)));
    }
}

proof fn lemma_take_all(s: Seq<u8>, n: int)
    requires
        0 <= n <= s.len(),
    ensures
        s.take(n) == s <==> n == s.len(),
{
    if n == s.len() {
        assert(s.take(n) =~= s);
    } else {
        assert(s.take(n).len() == n);
    }
}

/// A script that has been started is never without an end once its time is up, and its output is
/// used only when its process has succeeded and the output has ended.
pub proof fn law_script_ends(task: CgiTaskView, status: ChildStatus, now: u64)
    ensures
        elapsed(task.started, now) >= task.timeout ==> task.end(status, now) == Some(
            CgiEnd::TimedOut,
        ),
        task.end(status, now) == Some(CgiEnd::Finished) ==> task.io_eof && (task.process_exited
            || status is Succeeded),
{
}

/// A script's output is read as it was written: where its head is a text and ends with the first
/// empty line, the response is the one that the text and the body after the line stand for. Lines
/// end in a carriage return and a line feed, or, where the output holds no such empty line, in a
/// line feed alone.
pub proof fn law_output_is_read_as_written(head: Seq<char>, empty_line: Seq<u8>, body: Seq<u8>)
    requires
        empty_line == crlf_crlf() || (empty_line == lf_lf() && find(
            encode_utf8(head) + empty_line + body,
            crlf_crlf(),
        ) is None),
        find(encode_utf8(head) + empty_line, empty_line) == Some(encode_utf8(head).len() as int),
    ensures
        output_parts(encode_utf8(head) + empty_line + body) == Some((encode_utf8(head), body)),
        output_response(shown_text(encode_utf8(head)), body) == output_response(head, body),
{
    let bytes = encode_utf8(head);
    let n = bytes.len() as int;
    let output = bytes + empty_line + body;
    lemma_find_extend(bytes + empty_line, body, empty_line);
    assert(output.take(n) =~= bytes);
    assert(output.skip(n + empty_line.len()) =~= body);
    law_text_is_shown_as_written(head);
}

/// Nothing of a script's output is lost: it is the head, the empty line and the body.
pub proof fn law_output_is_head_and_body(output: Seq<u8>)
    ensures
        output_parts(output) matches Some((head, body)) ==> output == head + crlf_crlf() + body
            || output == head + lf_lf() + body,
{
    lemma_find_from(output, crlf_crlf(), 0);
    lemma_find_from(output, lf_lf(), 0);
    if let Some(p) = find(output, crlf_crlf()) {
        assert(output.subrange(p, p + 4) == crlf_crlf());
        assert(output =~= output.take(p) + output.subrange(p, p + 4) + output.skip(p + 4));
    } else if let Some(p) = find(output, lf_lf()) {
        assert(output.subrange(p, p + 2) == lf_lf());
        assert(output =~= output.take(p) + output.subrange(p, p + 2) + output.skip(p + 2));
    }
}

} // verus!
