//! HTTP responses and their wire form.

use crate::date::{http_date, push_http_date};
use crate::number::{decimal, push_number};
use crate::text::{
    is_text, lower, lower_slice, matches_ignoring_case, occurs_at, same_ignoring_case, to_chars,
};
use crate::util::{now_millis, path_segments, segments};
use vstd::prelude::*;
use vstd::slice::slice_subrange;
use vstd::utf8::encode_utf8;

verus! {

/// A response.
#[derive(Debug)]
pub struct Response {
    pub status: u16,
    pub headers: Vec<(String, String)>,
    pub body: Vec<u8>,
}

/// What a response holds.
#[verifier::ext_equal]
pub struct ResponseView {
    pub status: u16,
    pub headers: Seq<(Seq<char>, Seq<char>)>,
    pub body: Seq<u8>,
}

/// The texts of header fields.
pub open spec fn fields(headers: Seq<(String, String)>) -> Seq<(Seq<char>, Seq<char>)> {
    headers.map_values(|h: (String, String)| (h.0@, h.1@))
}

impl View for Response {
    type V = ResponseView;

    open spec fn view(&self) -> ResponseView {
        ResponseView { status: self.status, headers: fields(self.headers@), body: self.body@ }
    }
}

impl Clone for Response {
    fn clone(&self) -> (r: Response)
        ensures
            r@ == self@,
    {
        let mut headers: Vec<(String, String)> = Vec::new();
        let mut i: usize = 0;
        while i < self.headers.len()
            invariant
                0 <= i <= self.headers@.len(),
                headers@ == self.headers@.take(i as int),
            decreases self.headers.len() - i,
        {
            headers.push((self.headers[i].0.clone(), self.headers[i].1.clone()));
            i = i + 1;
        }
        assert(headers@ =~= self.headers@);
        Response { status: self.status, headers, body: self.body.clone() }
    }
}

/// A response without headers.
pub open spec fn plain(status: u16, body: Seq<u8>) -> ResponseView {
    ResponseView { status, headers: Seq::empty(), body }
}

impl ResponseView {
    /// The response with one more header.
    pub open spec fn with(self, name: Seq<char>, value: Seq<char>) -> ResponseView {
        ResponseView { headers: self.headers.push((name, value)), ..self }
    }

    /// The response has a header of the given name, in any case of ASCII letters.
    pub open spec fn has(self, name: Seq<char>) -> bool {
        exists|i: int|
            0 <= i < self.headers.len() && same_ignoring_case(
                (#[trigger] self.headers[i]).0,
                name,
            )
    }
}

/// The header lines of the first `n` headers.
pub open spec fn field_lines(headers: Seq<(Seq<char>, Seq<char>)>) -> Seq<char>
    decreases headers.len(),
{
    if headers.len() == 0 {
        Seq::empty()
    } else {
        field_lines(headers.drop_last()) + headers.last().0 + ": "@ + headers.last().1 + "\r\n"@
    }
}

/// The line with the default content type, where the response names none.
pub open spec fn type_line(r: ResponseView) -> Seq<char> {
    if r.has("content-type"@) {
        Seq::empty()
    } else {
        "Content-Type: text/plain; charset=utf-8\r\n"@
    }
}

/// The status says that the response ends with its head.
pub open spec fn ends_with_head(status: u16) -> bool {
    status == 204
}

/// The line with the length of the body, where the response has a body and does not give it.
pub open spec fn length_line(r: ResponseView) -> Seq<char> {
    if r.has("content-length"@) || ends_with_head(r.status) {
        Seq::empty()
    } else {
        "Content-Length: "@ + decimal(r.body.len() as int) + "\r\n"@
    }
}

/// The line that says what becomes of the connection, where the response does not.
pub open spec fn connection_line(r: ResponseView, keep_alive: bool) -> Seq<char> {
    if r.has("connection"@) {
        Seq::empty()
    } else if keep_alive {
        "Connection: keep-alive\r\n"@
    } else {
        "Connection: close\r\n"@
    }
}

/// The line with the date, where the response has none.
pub open spec fn date_line(r: ResponseView, seconds: int) -> Seq<char> {
    if r.has("date"@) {
        Seq::empty()
    } else {
        "Date: "@ + http_date(seconds) + "\r\n"@
    }
}

/// The head of a response, up to and with the empty line.
pub open spec fn response_head(r: ResponseView, keep_alive: bool, seconds: int) -> Seq<char> {
    "HTTP/1.1 "@ + decimal(r.status as int) + " "@ + reason(r.status) + "\r\n"@ + field_lines(
        r.headers,
    ) + type_line(r) + length_line(r) + connection_line(r, keep_alive) + date_line(r, seconds)
        + "Server: localhost/0.1\r\n\r\n"@
}

/// What is sent after the head of a response.
pub open spec fn sent_body(r: ResponseView) -> Seq<u8> {
    if ends_with_head(r.status) {
        Seq::empty()
    } else {
        r.body
    }
}

/// The bytes of a response sent `seconds` after the start of 1970.
pub open spec fn response_bytes(r: ResponseView, keep_alive: bool, seconds: int) -> Seq<u8> {
    encode_utf8(response_head(r, keep_alive, seconds)) + sent_body(r)
}

impl Response {
    /// A response without headers.
    pub fn new(status: u16, body: Vec<u8>) -> (r: Response)
        ensures
            r@ == plain(status, body@),
    {
        let r = Response { status, headers: Vec::new(), body };
        assert(r@ =~= plain(status, body@));
        r
    }

    /// Adds a header.
    pub fn header(self, name: &str, value: &str) -> (r: Response)
        ensures
            r@ == self@.with(name@, value@),
    {
        let mut r = self;
        r.headers.push((name.to_owned(), value.to_owned()));
        assert(r@ =~= self@.with(name@, value@));
        r
    }

    fn has_header(&self, name: &str) -> (r: bool)
        ensures
            r == self@.has(name@),
    {
        let mut i: usize = 0;
        while i < self.headers.len()
            invariant
                0 <= i <= self.headers@.len(),
                forall|k: int|
                    0 <= k < i ==> !same_ignoring_case((#[trigger] self@.headers[k]).0, name@),
            decreases self.headers.len() - i,
        {
            assert(self@.headers[i as int].0 == self.headers@[i as int].0@);
            if matches_ignoring_case(to_chars(self.headers[i].0.as_str()).as_slice(), name) {
                return true;
            }
            i = i + 1;
        }
        false
    }

    fn push_fields(&self, head: &mut String)
        ensures
            final(head)@ == old(head)@ + field_lines(self@.headers),
    {
        let ghost line = head@;
        let ghost all = self@.headers;
        let mut i: usize = 0;
        assert(line + field_lines(all.take(0)) =~= line);
        while i < self.headers.len()
            invariant
                0 <= i <= self.headers@.len(),
                all == fields(self.headers@),
                head@ == line + field_lines(all.take(i as int)),
            decreases self.headers.len() - i,
        {
            let ghost part = all.take(i + 1);
            assert(part.drop_last() =~= all.take(i as int));
            assert(part.last() == (self.headers@[i as int].0@, self.headers@[i as int].1@));
            head.append(self.headers[i].0.as_str());
            head.append(": ");
            head.append(self.headers[i].1.as_str());
            head.append("\r\n");
            i = i + 1;
            assert(head@ =~= line + field_lines(part));
        }
        assert(all.take(all.len() as int) =~= all);
    }

    fn push_type_line(&self, head: &mut String)
        ensures
            final(head)@ == old(head)@ + type_line(self@),
    {
        if !self.has_header("content-type") {
            head.append("Content-Type: text/plain; charset=utf-8\r\n");
        }
    }

    fn push_length_line(&self, head: &mut String)
        ensures
            final(head)@ == old(head)@ + length_line(self@),
    {
        if !self.has_header("content-length") && self.status != 204 {
            head.append("Content-Length: ");
            push_number(head, self.body.len() as u128, 10);
            head.append("\r\n");
        }
    }

    fn push_connection_line(&self, head: &mut String, keep_alive: bool)
        ensures
            final(head)@ == old(head)@ + connection_line(self@, keep_alive),
    {
        if !self.has_header("connection") {
            if keep_alive {
                head.append("Connection: keep-alive\r\n");
            } else {
                head.append("Connection: close\r\n");
            }
        }
    }

    fn push_date_line(&self, head: &mut String, seconds: u64)
        ensures
            final(head)@ == old(head)@ + date_line(self@, seconds as int),
    {
        if !self.has_header("date") {
            head.append("Date: ");
            push_http_date(head, seconds);
            head.append("\r\n");
        }
    }

    /// The wire form, dated by the system clock.
    pub fn to_bytes(&self, keep_alive: bool) -> (r: Vec<u8>)
        ensures
            exists|seconds: u64|
                r@ == #[trigger] response_bytes(self@, keep_alive, seconds as int),
    {
        let seconds: u128 = now_millis() / 1000;
        let seconds: u64 = if seconds <= u64::MAX as u128 {
            seconds as u64
        } else {
            u64::MAX
        };
        self.to_bytes_at(keep_alive, seconds)
    }

    /// The wire form, dated `seconds` after the start of 1970.
    pub fn to_bytes_at(&self, keep_alive: bool, seconds: u64) -> (r: Vec<u8>)
        ensures
            r@ == response_bytes(self@, keep_alive, seconds as int),
    {
        let mut head = "HTTP/1.1 ".to_owned();
        push_number(&mut head, self.status as u128, 10);
        head.append(" ");
        head.append(reason_phrase(self.status));
        head.append("\r\n");
        self.push_fields(&mut head);
        self.push_type_line(&mut head);
        self.push_length_line(&mut head);
        self.push_connection_line(&mut head, keep_alive);
        self.push_date_line(&mut head, seconds);
        head.append("Server: localhost/0.1\r\n\r\n");
        let mut out: Vec<u8> = Vec::new();
        out.extend_from_slice(head.as_str().as_bytes());
        if self.status != 204 {
            out.extend_from_slice(self.body.as_slice());
        }
        assert(out@ =~= response_bytes(self@, keep_alive, seconds as int));
        out
    }
}

/// The reason phrase of a status code.
pub open spec fn reason(status: u16) -> Seq<char> {
    if status == 200 {
        "OK"@
    } else if status == 201 {
        "Created"@
    } else if status == 204 {
        "No Content"@
    } else if status == 301 {
        "Moved Permanently"@
    } else if status == 302 {
        "Found"@
    } else if status == 303 {
        "See Other"@
    } else if status == 307 {
        "Temporary Redirect"@
    } else if status == 308 {
        "Permanent Redirect"@
    } else if status == 400 {
        "Bad Request"@
    } else if status == 403 {
        "Forbidden"@
    } else if status == 404 {
        "Not Found"@
    } else if status == 405 {
        "Method Not Allowed"@
    } else if status == 408 {
        "Request Timeout"@
    } else if status == 413 {
        "Payload Too Large"@
    } else if status == 500 {
        "Internal Server Error"@
    } else if status == 502 {
        "Bad Gateway"@
    } else if status == 504 {
        "Gateway Timeout"@
    } else {
        "Unknown"@
    }
}

/// The reason phrase of a status code.
pub fn reason_phrase(status: u16) -> (r: &'static str)
    ensures
        r@ == reason(status),
{
    match status {
        200 => "OK",
        201 => "Created",
        204 => "No Content",
        301 => "Moved Permanently",
        302 => "Found",
        303 => "See Other",
        307 => "Temporary Redirect",
        308 => "Permanent Redirect",
        400 => "Bad Request",
        403 => "Forbidden",
        404 => "Not Found",
        405 => "Method Not Allowed",
        408 => "Request Timeout",
        413 => "Payload Too Large",
        500 => "Internal Server Error",
        502 => "Bad Gateway",
        504 => "Gateway Timeout",
        _ => "Unknown",
    }
}

// Content types

/// The last index of `c` in `s`, or -1.
pub open spec fn last_index(s: Seq<char>, c: char) -> int
    decreases s.len(),
{
    if s.len() == 0 {
        -1
    } else if s.last() == c {
        s.len() - 1
    } else {
        last_index(s.drop_last(), c)
    }
}

/// The part of a file name after its last dot. A name that starts with its only dot has none.
pub open spec fn name_extension(name: Seq<char>) -> Seq<char> {
    let dot = last_index(name, '.');
    if dot <= 0 || name == ".."@ {
        Seq::empty()
    } else {
        name.skip(dot + 1)
    }
}

/// The extension of the file that a path names.
pub open spec fn extension(path: Seq<char>) -> Seq<char> {
    let names = segments(path);
    if names.len() == 0 {
        Seq::empty()
    } else {
        name_extension(names.last())
    }
}

/// The content type of files with the given extension, in lower case.
pub open spec fn content_type(ext: Seq<char>) -> Seq<char> {
    if ext == "html"@ || ext == "htm"@ {
        "text/html; charset=utf-8"@
    } else if ext == "css"@ {
        "text/css; charset=utf-8"@
    } else if ext == "js"@ {
        "application/javascript; charset=utf-8"@
    } else if ext == "json"@ {
        "application/json; charset=utf-8"@
    } else if ext == "txt"@ {
        "text/plain; charset=utf-8"@
    } else if ext == "svg"@ {
        "image/svg+xml"@
    } else if ext == "png"@ {
        "image/png"@
    } else if ext == "jpg"@ || ext == "jpeg"@ {
        "image/jpeg"@
    } else if ext == "gif"@ {
        "image/gif"@
    } else if ext == "webp"@ {
        "image/webp"@
    } else if ext == "ico"@ {
        "image/x-icon"@
    } else if ext == "pdf"@ {
        "application/pdf"@
    } else if ext == "wasm"@ {
        "application/wasm"@
    } else {
        "application/octet-stream"@
    }
}

/// The content type of a file.
pub open spec fn mime(path: Seq<char>) -> Seq<char> {
    content_type(lower(extension(path)))
}

/// The part of a file name after its last dot.
fn extension_of<'a>(name: &'a [char]) -> (r: &'a [char])
    ensures
        r@ == name_extension(name@),
{
    let mut n: usize = name.len();
    let total: usize = n;
    assert(name@.take(n as int) =~= name@);
    while n > 0 && name[n - 1] != '.'
        invariant
            0 <= n <= total,
            total == name@.len(),
            last_index(name@, '.') == last_index(name@.take(n as int), '.'),
        decreases n,
    {
        assert(name@.take(n as int).drop_last() =~= name@.take(n - 1));
        n = n - 1;
    }
    if n <= 1 || is_text(name, "..") {
        let r = slice_subrange(name, 0, 0);
        assert(r@ =~= Seq::<char>::empty());
        return r;
    }
    slice_subrange(name, n, total)
}

/// The content type of a file.
pub fn mime_type(path: &str) -> (r: &'static str)
    ensures
        r@ == mime(path@),
{
    let chars = to_chars(path);
    let names = path_segments(chars.as_slice());
    let ext: Vec<char> = if names.len() == 0 {
        Vec::new()
    } else {
        let last: &[char] = names[names.len() - 1];
        assert(segments(path@).last() == last@);
        lower_slice(extension_of(last))
    };
    assert(ext@ =~= lower(extension(path@)));
    let ext: &[char] = ext.as_slice();
    if is_text(ext, "html") || is_text(ext, "htm") {
        "text/html; charset=utf-8"
    } else if is_text(ext, "css") {
        "text/css; charset=utf-8"
    } else if is_text(ext, "js") {
        "application/javascript; charset=utf-8"
    } else if is_text(ext, "json") {
        "application/json; charset=utf-8"
    } else if is_text(ext, "txt") {
        "text/plain; charset=utf-8"
    } else if is_text(ext, "svg") {
        "image/svg+xml"
    } else if is_text(ext, "png") {
        "image/png"
    } else if is_text(ext, "jpg") || is_text(ext, "jpeg") {
        "image/jpeg"
    } else if is_text(ext, "gif") {
        "image/gif"
    } else if is_text(ext, "webp") {
        "image/webp"
    } else if is_text(ext, "ico") {
        "image/x-icon"
    } else if is_text(ext, "pdf") {
        "application/pdf"
    } else if is_text(ext, "wasm") {
        "application/wasm"
    } else {
        "application/octet-stream"
    }
}

/// The text holds the part.
pub open spec fn holds(text: Seq<char>, part: Seq<char>) -> bool {
    exists|i: int| #[trigger] occurs_at(text, part, i) && 0 <= i
}

proof fn lemma_holds(front: Seq<char>, part: Seq<char>, back: Seq<char>)
    ensures
        holds(front + part + back, part),
{
    let all = front + part + back;
    let i = front.len() as int;
    assert(all.subrange(i, i + part.len()) =~= part);
    assert(occurs_at(all, part, i));
}

/// A response is its head and then its body, but for one whose status says that it ends with its
/// head. The head gives the length of the body, the type of the content, what becomes of the
/// connection, the date and the server, unless the response says so itself.
pub proof fn law_response_has_the_standard_fields(r: ResponseView, keep_alive: bool, seconds: int)
    ensures
        !ends_with_head(r.status) ==> response_bytes(r, keep_alive, seconds) == encode_utf8(
            response_head(r, keep_alive, seconds),
        ) + r.body,
        ends_with_head(r.status) ==> response_bytes(r, keep_alive, seconds) == encode_utf8(
            response_head(r, keep_alive, seconds),
        ),
        !r.has("content-length"@) && !ends_with_head(r.status) ==> holds(
            response_head(r, keep_alive, seconds),
            "Content-Length: "@ + decimal(r.body.len() as int) + "\r\n"@,
        ),
        !r.has("content-type"@) ==> holds(
            response_head(r, keep_alive, seconds),
            "Content-Type: text/plain; charset=utf-8\r\n"@,
        ),
        !r.has("connection"@) ==> holds(
            response_head(r, keep_alive, seconds),
            if keep_alive {
                "Connection: keep-alive\r\n"@
            } else {
                "Connection: close\r\n"@
            },
        ),
        !r.has("date"@) ==> holds(
            response_head(r, keep_alive, seconds),
            "Date: "@ + http_date(seconds) + "\r\n"@,
        ),
        holds(response_head(r, keep_alive, seconds), "Server: localhost/0.1\r\n\r\n"@),
{
    let head = response_head(r, keep_alive, seconds);
    let start = "HTTP/1.1 "@ + decimal(r.status as int) + " "@ + reason(r.status) + "\r\n"@
        + field_lines(r.headers);
    let content = type_line(r);
    let length = length_line(r);
    let connection = connection_line(r, keep_alive);
    let date = date_line(r, seconds);
    let server = "Server: localhost/0.1\r\n\r\n"@;
    let none = Seq::<char>::empty();
    if ends_with_head(r.status) {
        assert(encode_utf8(head) + sent_body(r) =~= encode_utf8(head));
    }
    lemma_holds(start, content, length + connection + date + server);
    assert(head =~= start + content + (length + connection + date + server));
    lemma_holds(start + content, length, connection + date + server);
    assert(head =~= start + content + length + (connection + date + server));
    lemma_holds(start + content + length, connection, date + server);
    assert(head =~= start + content + length + connection + (date + server));
    lemma_holds(start + content + length + connection, date, server);
    lemma_holds(start + content + length + connection + date, server, none);
    assert(head =~= start + content + length + connection + date + server + none);
}

} // verus!
