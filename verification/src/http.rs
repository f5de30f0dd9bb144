//! HTTP requests and the parser that reads them out of a connection's input.

use crate::chunk::{
    chunk_reach, chunks, crlf_crlf, find_crlf_crlf, law_announced_chunk_arrives,
    law_chunks_resume, law_chunks_within_limit, lemma_chunk_reach, reached_length, ChunkDecoder,
    ChunkStatus, Decoded,
};
use crate::headers::HeaderMap;
use crate::number::{number, parse_number};
use crate::text::{
    find, is_text, lemma_find_extend, lemma_find_from, lower, lower_slice, matches_ignoring_case,
    same_ignoring_case, same_str, split, split_by, split_by_slice, split_once, split_once_slice,
    split_slice, texts, to_chars, to_text, trim, trim_slice, upper, upper_slice, utf8_text, words,
    words_slice, CharSet,
};
use vstd::prelude::*;
use vstd::slice::{slice_subrange, slice_to_vec};
use vstd::utf8::{decode_utf8, valid_utf8};

verus! {

/// A request.
#[derive(Debug)]
pub struct Request {
    pub method: String,
    pub target: String,
    pub path: String,
    pub query: String,
    pub version: String,
    pub headers: HeaderMap,
    pub body: Vec<u8>,
}

/// What a request holds.
#[verifier::ext_equal]
pub struct RequestView {
    pub method: Seq<char>,
    pub target: Seq<char>,
    pub path: Seq<char>,
    pub query: Seq<char>,
    pub version: Seq<char>,
    pub headers: Map<Seq<char>, Seq<char>>,
    pub body: Seq<u8>,
}

impl View for Request {
    type V = RequestView;

    open spec fn view(&self) -> RequestView {
        RequestView {
            method: self.method@,
            target: self.target@,
            path: self.path@,
            query: self.query@,
            version: self.version@,
            headers: self.headers@,
            body: self.body@,
        }
    }
}

impl Clone for Request {
    fn clone(&self) -> (r: Request)
        ensures
            r@ == self@,
    {
        Request {
            method: self.method.clone(),
            target: self.target.clone(),
            path: self.path.clone(),
            query: self.query.clone(),
            version: self.version.clone(),
            headers: self.headers.clone(),
            body: self.body.clone(),
        }
    }
}

/// The text of an optional string.
pub open spec fn opt_text(s: Option<&str>) -> Option<Seq<char>> {
    match s {
        Some(v) => Some(v@),
        None => None,
    }
}

impl RequestView {
    /// The value of a header; header names ignore the case of ASCII letters.
    pub open spec fn field(self, name: Seq<char>) -> Option<Seq<char>> {
        if self.headers.dom().contains(lower(name)) {
            Some(self.headers[lower(name)])
        } else {
            None
        }
    }

    /// The value of the Host header, or nothing.
    pub open spec fn host(self) -> Seq<char> {
        match self.field("host"@) {
            Some(v) => v,
            None => Seq::empty(),
        }
    }

    /// Whether the connection is to be closed after the response. HTTP/1.1 connections persist
    /// unless the client asks to close; HTTP/1.0 connections persist where it asks to keep them.
    pub open spec fn wants_close(self) -> bool {
        if self.target.len() == 0 {
            true
        } else if self.version == "HTTP/1.1"@ {
            match self.field("connection"@) {
                Some(v) => same_ignoring_case(v, "close"@),
                None => false,
            }
        } else if self.version == "HTTP/1.0"@ {
            match self.field("connection"@) {
                Some(v) => !same_ignoring_case(v, "keep-alive"@),
                None => true,
            }
        } else {
            true
        }
    }
}

impl Request {
    /// The value of a header; header names ignore the case of ASCII letters.
    pub fn header(&self, name: &str) -> (r: Option<&str>)
        ensures
            opt_text(r) == self@.field(name@),
    {
        let name = to_chars(name);
        let name = to_text(lower_slice(name.as_slice()).as_slice());
        self.headers.get(name.as_str())
    }

    /// The value of the Host header, or the empty string.
    pub fn host(&self) -> (r: &str)
        ensures
            r@ == self@.host(),
    {
        match self.header("host") {
            Some(v) => v,
            None => {
                proof {
                    reveal_strlit("");
                    assert(""@ =~= Seq::<char>::empty());
                }
                ""
            },
        }
    }

    /// Whether the connection is to be closed after the response.
    pub fn wants_close(&self) -> (r: bool)
        ensures
            r == self@.wants_close(),
    {
        if self.target.as_str().is_empty() {
            return true;
        }
        if same_str(self.version.as_str(), "HTTP/1.1") {
            match self.header("connection") {
                Some(v) => matches_ignoring_case(to_chars(v).as_slice(), "close"),
                None => false,
            }
        } else if same_str(self.version.as_str(), "HTTP/1.0") {
            match self.header("connection") {
                Some(v) => !matches_ignoring_case(to_chars(v).as_slice(), "keep-alive"),
                None => true,
            }
        } else {
            true
        }
    }
}

// The head of a request

/// How the length of a request's body is known.
#[derive(Debug, Clone, Copy, PartialEq, Eq, Structural)]
pub enum Framing {
    /// There is no body.
    Empty,
    /// The body has the given number of bytes.
    Length(usize),
    /// The body is in chunks.
    Chunked,
}

/// The characters of method names.
pub open spec fn is_method_char(c: char) -> bool {
    'A' <= c <= 'Z' || c == '-'
}

/// The characters of header names, after lowering.
pub open spec fn is_name_char(c: char) -> bool {
    'a' <= c <= 'z' || 'A' <= c <= 'Z' || '0' <= c <= '9' || c == '-' || c == '_'
}

/// The path and the query of a request target.
pub open spec fn target_parts(target: Seq<char>) -> (Seq<char>, Seq<char>) {
    match split_once(target, '?') {
        Some((path, query)) => (path, query),
        None => (target, Seq::empty()),
    }
}

/// What a request line says: a request without headers and body.
pub open spec fn request_line(line: Seq<char>) -> Result<RequestView, Seq<char>> {
    let parts = words(line, CharSet::Space);
    if parts.len() != 3 {
        Err("invalid request line"@)
    } else {
        let method = upper(parts[0]);
        let (path, query) = target_parts(parts[1]);
        if !(forall|i: int| 0 <= i < method.len() ==> is_method_char(#[trigger] method[i])) {
            Err("invalid HTTP method"@)
        } else if parts[2] != "HTTP/1.1"@ && parts[2] != "HTTP/1.0"@ {
            Err("only HTTP/1.1 is supported"@)
        } else if path.len() == 0 || path[0] != '/' {
            Err("request target must use origin-form"@)
        } else {
            Ok(
                RequestView {
                    method,
                    target: parts[1],
                    path,
                    query,
                    version: parts[2],
                    headers: Map::empty(),
                    body: Seq::empty(),
                },
            )
        }
    }
}

/// The headers after one more header line.
pub open spec fn header_line(
    line: Seq<char>,
    headers: Map<Seq<char>, Seq<char>>,
) -> Result<Map<Seq<char>, Seq<char>>, Seq<char>> {
    if line.len() == 0 {
        Ok(headers)
    } else {
        match split_once(line, ':') {
            None => Err("malformed header line"@),
            Some((left, right)) => {
                let name = lower(trim(left));
                let value = trim(right);
                if name.len() == 0 || !(forall|i: int|
                    0 <= i < name.len() ==> is_name_char(#[trigger] name[i])) {
                    Err("invalid header name"@)
                } else if name == "content-length"@ && headers.dom().contains(name) && headers[name]
                    != value {
                    Err("conflicting Content-Length headers"@)
                } else {
                    Ok(headers.insert(name, value))
                }
            },
        }
    }
}

/// The headers after more header lines. A later value replaces an earlier one.
pub open spec fn header_lines(
    lines: Seq<Seq<char>>,
    headers: Map<Seq<char>, Seq<char>>,
) -> Result<Map<Seq<char>, Seq<char>>, Seq<char>>
    decreases lines.len(),
{
    if lines.len() == 0 {
        Ok(headers)
    } else {
        match header_line(lines[0], headers) {
            Err(message) => Err(message),
            Ok(next) => header_lines(lines.skip(1), next),
        }
    }
}

/// A transfer coding list names the chunked coding.
pub open spec fn names_chunked(value: Seq<char>) -> bool {
    let tokens = split(lower(value), CharSet::Only(','));
    exists|i: int| 0 <= i < tokens.len() && same_ignoring_case(trim(#[trigger] tokens[i]), "chunked"@)
}

/// How the headers delimit the body.
pub open spec fn framing(headers: Map<Seq<char>, Seq<char>>, hard_limit: int) -> Result<
    Framing,
    Seq<char>,
> {
    let coded = headers.dom().contains("transfer-encoding"@);
    let sized = headers.dom().contains("content-length"@);
    if coded && sized {
        Err("Content-Length and Transfer-Encoding cannot be combined"@)
    } else if coded {
        if names_chunked(headers["transfer-encoding"@]) {
            Ok(Framing::Chunked)
        } else {
            Err("unsupported Transfer-Encoding"@)
        }
    } else if sized {
        match number(headers["content-length"@], 10, usize::MAX as int) {
            None => Err("invalid Content-Length"@),
            Some(n) => if n > hard_limit {
                Err("request body exceeds hard server limit"@)
            } else {
                Ok(Framing::Length(n as usize))
            },
        }
    } else {
        Ok(Framing::Empty)
    }
}

/// What can be said of the head of a request.
pub enum HeadView {
    NeedMore,
    Error(Seq<char>),
    Complete { head: RequestView, body_start: int, framing: Framing },
}

/// What the text of a head says, where the body starts at `body_start`.
pub open spec fn head_text(text: Seq<char>, body_start: int, hard_limit: int) -> HeadView {
    let lines = split_by(text, "\r\n"@);
    match request_line(lines[0]) {
        Err(message) => HeadView::Error(message),
        Ok(line) => match header_lines(lines.skip(1), Map::empty()) {
            Err(message) => HeadView::Error(message),
            Ok(headers) => if line.version == "HTTP/1.1"@ && !headers.dom().contains("host"@) {
                HeadView::Error("HTTP/1.1 Host header is required"@)
            } else {
                match framing(headers, hard_limit) {
                    Err(message) => HeadView::Error(message),
                    Ok(framing) => HeadView::Complete {
                        head: RequestView { headers, ..line },
                        body_start,
                        framing,
                    },
                }
            },
        },
    }
}

/// The head of the request that `buffer` starts with. It ends with the first empty line.
pub open spec fn head(buffer: Seq<u8>, hard_limit: int) -> HeadView {
    match find(buffer, crlf_crlf()) {
        None => HeadView::NeedMore,
        Some(end) => if !valid_utf8(buffer.take(end)) {
            HeadView::Error("headers are not valid UTF-8"@)
        } else {
            head_text(decode_utf8(buffer.take(end)), end + 4, hard_limit)
        },
    }
}

/// The outcome of reading the head of a request.
pub enum HeadResult {
    NeedMore,
    Error(String),
    Complete { request: Request, body_start: usize, framing: Framing },
}

impl View for HeadResult {
    type V = HeadView;

    open spec fn view(&self) -> HeadView {
        match self {
            HeadResult::NeedMore => HeadView::NeedMore,
            HeadResult::Error(message) => HeadView::Error(message@),
            HeadResult::Complete { request, body_start, framing } => HeadView::Complete {
                head: request@,
                body_start: *body_start as int,
                framing: *framing,
            },
        }
    }
}

/// The result of a function that gives a value or a message, by the value's view.
pub open spec fn result_view<T: View>(r: Result<T, String>) -> Result<T::V, Seq<char>> {
    match r {
        Ok(v) => Ok(v@),
        Err(m) => Err(m@),
    }
}

fn all_method_chars(s: &[char]) -> (r: bool)
    ensures
        r == forall|i: int| 0 <= i < s@.len() ==> is_method_char(#[trigger] s@[i]),
{
    let mut i: usize = 0;
    while i < s.len()
        invariant
            0 <= i <= s@.len(),
            forall|k: int| 0 <= k < i ==> is_method_char(#[trigger] s@[k]),
        decreases s.len() - i,
    {
        let c = s[i];
        if !(('A' <= c && c <= 'Z') || c == '-') {
            assert(!is_method_char(s@[i as int]));
            return false;
        }
        i = i + 1;
    }
    true
}

fn all_name_chars(s: &[char]) -> (r: bool)
    ensures
        r == forall|i: int| 0 <= i < s@.len() ==> is_name_char(#[trigger] s@[i]),
{
    let mut i: usize = 0;
    while i < s.len()
        invariant
            0 <= i <= s@.len(),
            forall|k: int| 0 <= k < i ==> is_name_char(#[trigger] s@[k]),
        decreases s.len() - i,
    {
        let c = s[i];
        if !(('a' <= c && c <= 'z') || ('A' <= c && c <= 'Z') || ('0' <= c && c <= '9') || c == '-'
            || c == '_') {
            assert(!is_name_char(s@[i as int]));
            return false;
        }
        i = i + 1;
    }
    true
}

/// Reads a request line.
pub fn parse_request_line(line: &[char]) -> (r: Result<Request, String>)
    ensures
        result_view(r) == request_line(line@),
{
    let parts = words_slice(line, CharSet::Space);
    if parts.len() != 3 {
        return Err("invalid request line".to_owned());
    }
    assert(texts(parts@)[0] == parts@[0]@);
    assert(texts(parts@)[1] == parts@[1]@);
    assert(texts(parts@)[2] == parts@[2]@);
    let method = upper_slice(parts[0]);
    if !all_method_chars(method.as_slice()) {
        return Err("invalid HTTP method".to_owned());
    }
    if !is_text(parts[2], "HTTP/1.1") && !is_text(parts[2], "HTTP/1.0") {
        return Err("only HTTP/1.1 is supported".to_owned());
    }
    let target: &[char] = parts[1];
    let empty: Vec<char> = Vec::new();
    let (path, query) = match split_once_slice(target, '?') {
        Some((p, q)) => (p, q),
        None => (target, empty.as_slice()),
    };
    assert(target_parts(target@) == (path@, query@));
    if path.len() == 0 || path[0] != '/' {
        return Err("request target must use origin-form".to_owned());
    }
    Ok(
        Request {
            method: to_text(method.as_slice()),
            target: to_text(target),
            path: to_text(path),
            query: to_text(query),
            version: to_text(parts[2]),
            headers: HeaderMap::new(),
            body: Vec::new(),
        },
    )
}

/// Adds a header line to the headers.
fn add_header_line(headers: &mut HeaderMap, line: &[char]) -> (r: Result<(), String>)
    ensures
        match (r, header_line(line@, old(headers)@)) {
            (Ok(_), Ok(next)) => final(headers)@ == next,
            (Err(m), Err(message)) => m@ == message,
            _ => false,
        },
{
    if line.len() == 0 {
        return Ok(());
    }
    let (left, right) = match split_once_slice(line, ':') {
        Some(v) => v,
        None => {
            return Err("malformed header line".to_owned());
        },
    };
    let name = lower_slice(trim_slice(left));
    if name.len() == 0 || !all_name_chars(name.as_slice()) {
        return Err("invalid header name".to_owned());
    }
    let value = to_text(trim_slice(right));
    let key = to_text(name.as_slice());
    if is_text(name.as_slice(), "content-length") {
        if let Some(previous) = headers.get(key.as_str()) {
            if !same_str(previous, value.as_str()) {
                return Err("conflicting Content-Length headers".to_owned());
            }
        }
    }
    headers.insert(key, value);
    Ok(())
}

/// Reads header lines, from the given one on.
fn parse_header_lines(lines: &[&[char]], start: usize) -> (r: Result<HeaderMap, String>)
    requires
        start <= lines@.len(),
    ensures
        result_view(r) == header_lines(texts(lines@).skip(start as int), Map::empty()),
{
    let mut headers = HeaderMap::new();
    let mut i: usize = start;
    while i < lines.len()
        invariant
            start <= i <= lines@.len(),
            header_lines(texts(lines@).skip(start as int), Map::empty()) == header_lines(
                texts(lines@).skip(i as int),
                headers@,
            ),
        decreases lines.len() - i,
    {
        assert(texts(lines@).skip(i as int)[0] == lines@[i as int]@);
        assert(texts(lines@).skip(i as int).skip(1) =~= texts(lines@).skip(i + 1));
        match add_header_line(&mut headers, lines[i]) {
            Ok(_) => {},
            Err(message) => {
                return Err(message);
            },
        }
        i = i + 1;
    }
    Ok(headers)
}

/// Whether a transfer coding list names the chunked coding.
fn is_chunked(value: &str) -> (r: bool)
    ensures
        r == names_chunked(value@),
{
    let lowered = lower_slice(to_chars(value).as_slice());
    let tokens = split_slice(lowered.as_slice(), CharSet::Only(','));
    let ghost all = split(lower(value@), CharSet::Only(','));
    let mut i: usize = 0;
    while i < tokens.len()
        invariant
            0 <= i <= tokens@.len(),
            texts(tokens@) == all,
            all == split(lower(value@), CharSet::Only(',')),
            forall|k: int|
                0 <= k < i ==> !same_ignoring_case(trim(#[trigger] all[k]), "chunked"@),
        decreases tokens.len() - i,
    {
        assert(all[i as int] == tokens@[i as int]@);
        if matches_ignoring_case(trim_slice(tokens[i]), "chunked") {
            return true;
        }
        i = i + 1;
    }
    false
}

/// How the headers delimit the body.
pub fn body_framing(headers: &HeaderMap, hard_limit: usize) -> (r: Result<Framing, String>)
    ensures
        match (r, framing(headers@, hard_limit as int)) {
            (Ok(f), Ok(g)) => f == g,
            (Err(m), Err(message)) => m@ == message,
            _ => false,
        },
{
    let coding = headers.get("transfer-encoding");
    let length = headers.get("content-length");
    if coding.is_some() && length.is_some() {
        return Err("Content-Length and Transfer-Encoding cannot be combined".to_owned());
    }
    if let Some(value) = coding {
        if is_chunked(value) {
            return Ok(Framing::Chunked);
        }
        return Err("unsupported Transfer-Encoding".to_owned());
    }
    if let Some(value) = length {
        return match parse_number(to_chars(value).as_slice(), 10, usize::MAX) {
            None => Err("invalid Content-Length".to_owned()),
            Some(n) => if n > hard_limit {
                Err("request body exceeds hard server limit".to_owned())
            } else {
                Ok(Framing::Length(n))
            },
        };
    }
    Ok(Framing::Empty)
}

/// Reads the head of the request that `buffer` starts with.
pub fn parse_head(buffer: &[u8], hard_limit: usize) -> (r: HeadResult)
    ensures
        r@ == head(buffer@, hard_limit as int),
        r is Complete ==> r->body_start <= buffer@.len(),
{
    let total: usize = buffer.len();
    assert(buffer@.skip(0) =~= buffer@);
    let end = match find_crlf_crlf(buffer, 0) {
        Some(k) => k,
        None => {
            return HeadResult::NeedMore;
        },
    };
    let text = match utf8_text(slice_subrange(buffer, 0, end)) {
        Some(s) => to_chars(s.as_str()),
        None => {
            return HeadResult::Error("headers are not valid UTF-8".to_owned());
        },
    };
    proof {
        reveal_strlit("\r\n");
    }
    let separator = to_chars("\r\n");
    let lines = split_by_slice(text.as_slice(), separator.as_slice());
    assert(texts(lines@)[0] == lines@[0]@);
    let mut request = match parse_request_line(lines[0]) {
        Ok(r) => r,
        Err(message) => {
            return HeadResult::Error(message);
        },
    };
    let headers = match parse_header_lines(lines.as_slice(), 1) {
        Ok(h) => h,
        Err(message) => {
            return HeadResult::Error(message);
        },
    };
    if same_str(request.version.as_str(), "HTTP/1.1") && !headers.contains_key("host") {
        return HeadResult::Error("HTTP/1.1 Host header is required".to_owned());
    }
    let framing = match body_framing(&headers, hard_limit) {
        Ok(f) => f,
        Err(message) => {
            return HeadResult::Error(message);
        },
    };
    request.headers = headers;
    let body_start: usize = end + 4;
    assert(body_start <= total);
    HeadResult::Complete { request, body_start, framing }
}

// Whole requests

/// What can be said of the request that a buffer starts with.
pub enum ParseView {
    NeedMore,
    Complete { request: RequestView, consumed: int },
    Error(Seq<char>),
}

/// The outcome of parsing a request.
#[derive(Debug)]
pub enum ParseResult {
    /// The request has not arrived completely.
    NeedMore,
    /// A request, and the number of bytes that it takes.
    Complete { request: Request, consumed: usize },
    /// The input is not a request that the server can read.
    Error(String),
}

impl View for ParseResult {
    type V = ParseView;

    open spec fn view(&self) -> ParseView {
        match self {
            ParseResult::NeedMore => ParseView::NeedMore,
            ParseResult::Complete { request, consumed } => ParseView::Complete {
                request: request@,
                consumed: *consumed as int,
            },
            ParseResult::Error(message) => ParseView::Error(message@),
        }
    }
}

/// The request with its body, where the head and the framing are known.
pub open spec fn with_body(
    buffer: Seq<u8>,
    head: RequestView,
    body_start: int,
    framing: Framing,
    hard_limit: int,
) -> ParseView {
    match framing {
        Framing::Empty => ParseView::Complete { request: head, consumed: body_start },
        Framing::Length(n) => if buffer.len() < body_start + n {
            ParseView::NeedMore
        } else {
            ParseView::Complete {
                request: RequestView {
                    body: buffer.subrange(body_start, body_start + n),
                    ..head
                },
                consumed: body_start + n,
            }
        },
        Framing::Chunked => match chunks(buffer.skip(body_start), 0, Seq::empty(), hard_limit) {
            Decoded::NeedMore { .. } => ParseView::NeedMore,
            Decoded::Done { body, used } => ParseView::Complete {
                request: RequestView { body, ..head },
                consumed: body_start + used,
            },
            Decoded::Error(message) => ParseView::Error(message),
        },
    }
}

/// The request that `buffer` starts with.
pub open spec fn parse(buffer: Seq<u8>, hard_limit: int) -> ParseView {
    if buffer.len() > hard_limit {
        ParseView::Error("request exceeds hard server limit"@)
    } else {
        match head(buffer, hard_limit) {
            HeadView::NeedMore => ParseView::NeedMore,
            HeadView::Error(message) => ParseView::Error(message),
            HeadView::Complete { head, body_start, framing } => with_body(
                buffer,
                head,
                body_start,
                framing,
                hard_limit,
            ),
        }
    }
}

/// The length that the body of a request is known to reach, once its head has arrived: the
/// announced length, or that of the chunks that have arrived and of the one that is arriving. No
/// limit plays a part in it.
pub open spec fn announced(buffer: Seq<u8>) -> int {
    match head(buffer, usize::MAX as int) {
        HeadView::Complete { body_start, framing, .. } => match framing {
            Framing::Empty => 0,
            Framing::Length(n) => n as int,
            Framing::Chunked => chunk_reach(buffer.skip(body_start), 0, 0),
        },
        _ => 0,
    }
}

/// The Host header of a request, once its head has arrived.
pub open spec fn announced_host(buffer: Seq<u8>) -> Option<Seq<char>> {
    match head(buffer, usize::MAX as int) {
        HeadView::Complete { head, .. } => Some(head.host()),
        _ => None,
    }
}

/// A head that is accepted under a limit is accepted without one.
pub proof fn lemma_head_unlimited(buffer: Seq<u8>, hard_limit: int)
    ensures
        !(head(buffer, hard_limit) is Error) ==> head(buffer, usize::MAX as int) == head(
            buffer,
            hard_limit,
        ),
{
    if let Some(end) = find(buffer, crlf_crlf()) {
        let lines = split_by(decode_utf8(buffer.take(end)), "\r\n"@);
        if let Ok(headers) = header_lines(lines.skip(1), Map::empty()) {
            crate::number::lemma_number_range(
                headers["content-length"@],
                10,
                usize::MAX as int,
            );
        }
    }
}

/// The head of a request does not change when more input follows.
pub proof fn lemma_head_extend(buffer: Seq<u8>, more: Seq<u8>, hard_limit: int)
    ensures
        !(head(buffer, hard_limit) is NeedMore) ==> head(buffer + more, hard_limit) == head(
            buffer,
            hard_limit,
        ),
        head(buffer, hard_limit) is Complete ==> 4 <= head(buffer, hard_limit)->body_start
            <= buffer.len(),
{
    lemma_find_extend(buffer, more, crlf_crlf());
    lemma_find_from(buffer, crlf_crlf(), 0);
    if let Some(end) = find(buffer, crlf_crlf()) {
        assert((buffer + more).take(end) =~= buffer.take(end));
    }
}

/// Input that follows a request does not change it: a request that is complete at the start of
/// the input is the same request, and takes the same bytes, whatever comes after it, and input
/// that is refused stays refused for the same reason.
pub proof fn law_parse_ignores_what_follows(buffer: Seq<u8>, more: Seq<u8>, hard_limit: int)
    requires
        buffer.len() + more.len() <= hard_limit,
        !(parse(buffer, hard_limit) is NeedMore),
    ensures
        parse(buffer + more, hard_limit) == parse(buffer, hard_limit),
{
    lemma_head_extend(buffer, more, hard_limit);
    if let HeadView::Complete { head, body_start, framing } = head(buffer, hard_limit) {
        assert((buffer + more).skip(body_start) =~= buffer.skip(body_start) + more);
        law_chunks_resume(buffer.skip(body_start), more, 0, Seq::empty(), hard_limit);
        if let Framing::Length(n) = framing {
            if buffer.len() >= body_start + n {
                assert((buffer + more).subrange(body_start, body_start + n) =~= buffer.subrange(
                    body_start,
                    body_start + n,
                ));
            }
        }
    }
}

/// What a request announces holds of the request that it becomes: it has the Host header that was
/// announced, and a body of at least the announced length.
pub proof fn law_announced_body_arrives(buffer: Seq<u8>, more: Seq<u8>, hard_limit: int)
    requires
        parse(buffer + more, hard_limit) is Complete,
    ensures
        announced_host(buffer) matches Some(host) ==> {
            &&& parse(buffer + more, hard_limit)->request.host() == host
            &&& parse(buffer + more, hard_limit)->request.body.len() >= announced(buffer)
        },
{
    let unlimited = usize::MAX as int;
    lemma_head_extend(buffer, more, unlimited);
    lemma_head_unlimited(buffer + more, hard_limit);
    if let HeadView::Complete { head: h, body_start, framing } = head(buffer, unlimited) {
        assert((buffer + more).skip(body_start) =~= buffer.skip(body_start) + more);
        law_announced_chunk_arrives(buffer.skip(body_start), more, 0, Seq::empty(), hard_limit);
    }
}

/// A complete request lies inside the input: what is left after it is the start of the next one.
pub proof fn law_parse_consumes_a_prefix(buffer: Seq<u8>, hard_limit: int)
    ensures
        match parse(buffer, hard_limit) {
            ParseView::Complete { request, consumed } => 4 <= consumed <= buffer.len() && parse(
                buffer.take(consumed),
                hard_limit,
            ) == parse(buffer, hard_limit),
            _ => true,
        },
{
    if let ParseView::Complete { request, consumed } = parse(buffer, hard_limit) {
        lemma_head_extend(buffer, Seq::empty(), hard_limit);
        if let HeadView::Complete { head: h, body_start, framing } = head(buffer, hard_limit) {
            law_chunks_resume(buffer.skip(body_start), Seq::empty(), 0, Seq::empty(), hard_limit);
            let used = buffer.take(consumed);
            lemma_find_from(buffer, crlf_crlf(), 0);
            let end = find(buffer, crlf_crlf())->0;
            assert(used.subrange(end, end + 4) =~= buffer.subrange(end, end + 4));
            assert forall|j: int| 0 <= j < end implies !crate::text::occurs_at(
                used,
                crlf_crlf(),
                j,
            ) by {
                assert(!crate::text::occurs_at(buffer, crlf_crlf(), j));
                assert(used.subrange(j, j + 4) =~= buffer.subrange(j, j + 4));
            }
            crate::text::lemma_find_is(used, crlf_crlf(), end);
            assert(used.take(end) =~= buffer.take(end));
            assert(head(used, hard_limit) == head(buffer, hard_limit));
            match framing {
                Framing::Empty => {},
                Framing::Length(n) => {
                    assert(used.subrange(body_start, body_start + n) =~= buffer.subrange(
                        body_start,
                        body_start + n,
                    ));
                },
                Framing::Chunked => {
                    let n = consumed - body_start;
                    assert(used.skip(body_start) =~= buffer.skip(body_start).take(n));
                    crate::chunk::law_chunks_end(buffer.skip(body_start), 0, Seq::empty(), hard_limit);
                },
            }
        }
    }
}

/// A parser that keeps what it has read of a request between reads.
pub struct RequestParser {
    state: Option<Started>,
}

/// A request whose head has been read.
struct Started {
    request: Request,
    body_start: usize,
    framing: Framing,
    decoder: ChunkDecoder,
}

impl RequestParser {
    /// The parser can go on with `buffer`: what it has read is what the start of `buffer` says,
    /// whatever follows.
    pub closed spec fn resumes(self, buffer: Seq<u8>, hard_limit: int) -> bool {
        match self.state {
            None => true,
            Some(s) => {
                &&& head(buffer, hard_limit) == HeadView::Complete {
                    head: s.request@,
                    body_start: s.body_start as int,
                    framing: s.framing,
                }
                &&& s.decoder.resumes(buffer.skip(s.body_start as int), hard_limit)
            },
        }
    }

    /// The parser has read no part of a request.
    pub closed spec fn fresh(self) -> bool {
        self.state is None
    }

    /// The parser has just seen that `buffer` is the start of an incomplete request.
    pub closed spec fn stopped_at(self, buffer: Seq<u8>, hard_limit: int) -> bool {
        match self.state {
            None => head(buffer, hard_limit) is NeedMore,
            Some(s) => self.resumes(buffer, hard_limit) && (s.framing is Chunked ==> chunks(
                buffer.skip(s.body_start as int),
                0,
                Seq::empty(),
                hard_limit,
            ) == (Decoded::NeedMore {
                pos: s.decoder.pos(),
                out: s.decoder.out(),
                pending: s.decoder.pending(),
            })),
        }
    }

    /// A parser that has read no part of a request can go on with any input.
    pub proof fn lemma_fresh(self, hard_limit: int)
        requires
            self.fresh(),
        ensures
            forall|buffer: Seq<u8>| #[trigger] self.resumes(buffer, hard_limit),
    {
    }

    /// What a parser has read stands when more input follows.
    pub proof fn lemma_resumes_extend(self, buffer: Seq<u8>, more: Seq<u8>, hard_limit: int)
        requires
            self.resumes(buffer, hard_limit),
        ensures
            self.resumes(buffer + more, hard_limit),
    {
        if let Some(s) = self.state {
            lemma_head_extend(buffer, more, hard_limit);
            let start = s.body_start as int;
            assert((buffer + more).skip(start) =~= buffer.skip(start) + more);
            s.decoder.lemma_resumes_extend(buffer.skip(start), more, hard_limit);
        }
    }

    /// A parser that has read no part of a request.
    pub fn new() -> (r: RequestParser)
        ensures
            r.fresh(),
    {
        RequestParser { state: None }
    }

    /// Parses what has arrived. `buffer` is all input since the start of the request. The result
    /// is that of parsing the whole of `buffer` at once.
    pub fn advance(&mut self, buffer: &[u8], hard_limit: usize) -> (r: ParseResult)
        requires
            old(self).resumes(buffer@, hard_limit as int),
        ensures
            r@ == parse(buffer@, hard_limit as int),
            r is Complete ==> r->consumed <= buffer@.len(),
            r is NeedMore ==> final(self).stopped_at(buffer@, hard_limit as int),
            r is NeedMore ==> final(self).resumes(buffer@, hard_limit as int),
            !(r is NeedMore) ==> final(self).fresh(),
    {
        let total: usize = buffer.len();
        let state = self.state.take();
        if total > hard_limit {
            return ParseResult::Error("request exceeds hard server limit".to_owned());
        }
        let started = match state {
            Some(s) => s,
            None => match parse_head(buffer, hard_limit) {
                HeadResult::NeedMore => {
                    return ParseResult::NeedMore;
                },
                HeadResult::Error(message) => {
                    return ParseResult::Error(message);
                },
                HeadResult::Complete { request, body_start, framing } => {
                    let decoder = ChunkDecoder::new();
                    Started { request, body_start, framing, decoder }
                },
            },
        };
        proof {
            lemma_head_extend(buffer@, Seq::empty(), hard_limit as int);
        }
        let body_start: usize = started.body_start;
        let framing = started.framing;
        let mut decoder = started.decoder;
        let mut request = started.request;
        let ghost rest = buffer@.skip(body_start as int);
        assert(decoder.resumes(rest, hard_limit as int));
        match framing {
            Framing::Empty => ParseResult::Complete { request, consumed: body_start },
            Framing::Length(n) => {
                if total - body_start < n {
                    self.state = Some(Started { request, body_start, framing, decoder });
                    return ParseResult::NeedMore;
                }
                request.body = slice_to_vec(slice_subrange(buffer, body_start, body_start + n));
                ParseResult::Complete { request, consumed: body_start + n }
            },
            Framing::Chunked => {
                let ghost was = decoder;
                proof {
                    assert(rest + Seq::<u8>::empty() =~= rest);
                    was.lemma_resumes_at(rest, hard_limit as int);
                }
                match decoder.advance(slice_subrange(buffer, body_start, total), hard_limit) {
                    ChunkStatus::NeedMore => {
                        proof {
                            was.lemma_resumes_after(decoder, rest, hard_limit as int);
                        }
                        self.state = Some(Started { request, body_start, framing, decoder });
                        ParseResult::NeedMore
                    },
                    ChunkStatus::Done(used) => {
                        request.body = decoder.into_body();
                        ParseResult::Complete { request, consumed: body_start + used }
                    },
                    ChunkStatus::Error(message) => ParseResult::Error(message),
                }
            },
        }
    }

    /// The length that the body of the incomplete request is known to reach.
    pub fn body_announced(&self) -> (r: usize)
        ensures
            forall|buffer: Seq<u8>, hard_limit: usize|
                #![trigger self.stopped_at(buffer, hard_limit as int)]
                self.stopped_at(buffer, hard_limit as int) ==> r == announced(buffer),
    {
        assert forall|buffer: Seq<u8>, hard_limit: usize|
            #![trigger self.stopped_at(buffer, hard_limit as int)]
            self.stopped_at(buffer, hard_limit as int) implies match self.state {
            None => announced(buffer) == 0,
            Some(s) => match s.framing {
                Framing::Empty => announced(buffer) == 0,
                Framing::Length(n) => announced(buffer) == n,
                Framing::Chunked => announced(buffer) == s.decoder.out().len()
                    + s.decoder.pending() <= usize::MAX,
            },
        } by {
            lemma_head_unlimited(buffer, hard_limit as int);
            if let Some(s) = self.state {
                let start = s.body_start as int;
                lemma_head_extend(buffer, Seq::empty(), hard_limit as int);
                lemma_chunk_reach(buffer.skip(start), 0, Seq::empty(), hard_limit as int);
                law_chunks_within_limit(buffer.skip(start), 0, Seq::empty(), hard_limit as int);
            }
        }
        match &self.state {
            None => 0,
            Some(s) => match s.framing {
                Framing::Empty => 0,
                Framing::Length(n) => n,
                Framing::Chunked => s.decoder.announced(),
            },
        }
    }
}

impl RequestParser {
    /// The Host header of the incomplete request, once its head has arrived.
    pub fn host_announced(&self) -> (r: Option<&str>)
        ensures
            forall|buffer: Seq<u8>, hard_limit: usize|
                #![trigger self.stopped_at(buffer, hard_limit as int)]
                self.stopped_at(buffer, hard_limit as int) ==> opt_text(r) == announced_host(
                    buffer,
                ),
    {
        assert forall|buffer: Seq<u8>, hard_limit: usize|
            #![trigger self.stopped_at(buffer, hard_limit as int)]
            self.stopped_at(buffer, hard_limit as int) implies announced_host(buffer)
            == match self.state {
            None => None,
            Some(s) => Some(s.request@.host()),
        } by {
            lemma_head_unlimited(buffer, hard_limit as int);
        }
        match &self.state {
            None => None,
            Some(s) => Some(s.request.host()),
        }
    }
}

/// The Host header of a request and the length that its body is known to reach, once its head has
/// arrived.
pub fn announcement(buffer: &[u8]) -> (r: Option<(String, u128)>)
    ensures
        match r {
            Some((host, length)) => announced_host(buffer@) == Some(host@) && length == announced(
                buffer@,
            ),
            None => announced_host(buffer@) is None,
        },
{
    let total: usize = buffer.len();
    match parse_head(buffer, usize::MAX) {
        HeadResult::Complete { request, body_start, framing } => {
            let length: u128 = match framing {
                Framing::Empty => 0,
                Framing::Length(n) => n as u128,
                Framing::Chunked => reached_length(slice_subrange(buffer, body_start, total)),
            };
            Some((request.host().to_owned(), length))
        },
        _ => None,
    }
}

/// Parses the request that `buffer` starts with.
pub fn try_parse_request(buffer: &[u8], hard_limit: usize) -> (r: ParseResult)
    ensures
        r@ == parse(buffer@, hard_limit as int),
        r is Complete ==> r->consumed <= buffer@.len(),
{
    let mut parser = RequestParser::new();
    proof {
        parser.lemma_fresh(hard_limit as int);
    }
    parser.advance(buffer, hard_limit)
}

} // verus!
