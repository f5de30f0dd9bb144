//! What is said where something is refused.

use crate::addr::{addr_text, listen_addr};
use crate::cgi::{output_line, output_response, OutputHead};
use crate::config::{
    add_block, add_line, conflict_from, route_directive, server_directive, server_lines, server_of,
    size_value, Blocks, ReportView, RouteView, ServerView,
};
use crate::http::{
    framing, head, header_line, parse, request_line, HeadView, ParseView, RequestView,
};
use crate::laws::configuration::directive;
use crate::multipart::{boundary, sent_file, FileView};
use crate::number::{decimal, number};
use crate::text::{lower, same_ignoring_case, split_once, trim, trim_end, words, CharSet};
use crate::util::{join_below, normal_path, percent_bytes, percent_text, segments};
use vstd::prelude::*;
use vstd::utf8::{decode_utf8, encode_utf8, valid_utf8};

verus! {

/// Why a request line is refused, by the first thing that is wrong with it.
pub proof fn law_refused_request_lines(line: Seq<char>)
    ensures
        request_line(line) matches Err(m) ==> {
            let parts = words(line, CharSet::Space);
            &&& parts.len() != 3 <==> m == "invalid request line"@
            &&& m == "invalid request line"@ || m == "invalid HTTP method"@ || m
                == "only HTTP/1.1 is supported"@ || m == "request target must use origin-form"@
            &&& m == "only HTTP/1.1 is supported"@ ==> parts[2] != "HTTP/1.1"@ && parts[2]
                != "HTTP/1.0"@
            &&& m == "request target must use origin-form"@ ==> parts[2] == "HTTP/1.1"@ || parts[2]
                == "HTTP/1.0"@
        },
{
    reveal_strlit("invalid request line");
    reveal_strlit("invalid HTTP method");
    reveal_strlit("only HTTP/1.1 is supported");
    reveal_strlit("request target must use origin-form");
    assert("invalid request line"@.len() == 20);
    assert("invalid HTTP method"@.len() == 19);
    assert("only HTTP/1.1 is supported"@.len() == 26);
    assert("request target must use origin-form"@.len() == 35);
}

/// Why a header line is refused: it has no colon, its name is wrong, or it gives the length of the
/// body for a second time and otherwise.
pub proof fn law_refused_header_lines(line: Seq<char>, headers: Map<Seq<char>, Seq<char>>)
    ensures
        header_line(line, headers) matches Err(m) ==> {
            &&& split_once(line, ':') is None ==> m == "malformed header line"@
            &&& split_once(line, ':') is Some ==> m == "invalid header name"@ || (m
                == "conflicting Content-Length headers"@ && lower(
                trim((split_once(line, ':')->0).0),
            ) == "content-length"@)
        },
{
}

/// Why the way in which a body is announced is refused.
pub proof fn law_refused_framings(headers: Map<Seq<char>, Seq<char>>, limit: int)
    ensures
        framing(headers, limit) matches Err(m) ==> {
            let coded = headers.dom().contains("transfer-encoding"@);
            let sized = headers.dom().contains("content-length"@);
            &&& coded || sized
            &&& coded && sized ==> m == "Content-Length and Transfer-Encoding cannot be combined"@
            &&& coded && !sized ==> m == "unsupported Transfer-Encoding"@
            &&& !coded && number(headers["content-length"@], 10, usize::MAX as int) is None ==> m
                == "invalid Content-Length"@
            &&& !coded && number(headers["content-length"@], 10, usize::MAX as int) is Some ==> m
                == "request body exceeds hard server limit"@
        },
{
}

/// What is said of a request that is too long, whose head is no text, or that names no host.
pub proof fn law_refused_requests(buffer: Seq<u8>, limit: int)
    ensures
        buffer.len() > limit ==> parse(buffer, limit) == ParseView::Error(
            "request exceeds hard server limit"@,
        ),
        crate::text::find(buffer, crate::chunk::crlf_crlf()) matches Some(end) ==> (!valid_utf8(
            buffer.take(end),
        ) ==> head(buffer, limit) == HeadView::Error("headers are not valid UTF-8"@)),
{
}

/// Why a path is refused.
pub proof fn law_refused_path_messages(path: Seq<char>, root: Seq<char>)
    ensures
        normal_path(path) matches Err(m) ==> match percent_text(path) {
            Err(reason) => m == reason,
            Ok(decoded) => if decoded.len() > 0 && decoded[0] == '/' && !decoded.contains('\0') {
                m == "parent path traversal is forbidden"@ && segments(decoded).contains(".."@)
            } else {
                m == "invalid request path"@
            },
        },
        join_below(root, path) matches Err(m) ==> m == "unsafe filesystem path"@,
{
}

/// Escapes are resolved byte by byte, and what comes of them is read as text; where it is none, the
/// path is refused.
pub proof fn law_resolved_text(s: Seq<char>)
    ensures
        match percent_bytes(encode_utf8(s)) {
            Ok(bytes) => if valid_utf8(bytes) {
                percent_text(s) == Ok::<Seq<char>, Seq<char>>(decode_utf8(bytes))
            } else {
                percent_text(s) == Err::<Seq<char>, Seq<char>>("URL path is not valid UTF-8"@)
            },
            Err(m) => percent_text(s) == Err::<Seq<char>, Seq<char>>(m),
        },
        percent_bytes(seq![37u8]) == Err::<Seq<u8>, Seq<char>>("truncated percent escape"@),
        percent_bytes(seq![37u8, 37u8, 37u8]) == Err::<Seq<u8>, Seq<char>>(
            "invalid percent escape"@,
        ),
{
}

/// What is said of an output that stands for no response.
pub proof fn law_refused_outputs(h: OutputHead, raw: Seq<char>, head: Seq<char>, body: Seq<u8>)
    ensures
        output_line(h, raw) matches Err(m) ==> {
            let line = trim_end(raw, CharSet::Only('\r'));
            match split_once(line, ':') {
                None => m == "malformed CGI header `"@ + line + "`"@,
                Some((name, value)) => same_ignoring_case(name, "Status"@) && if words(
                    value,
                    CharSet::Space,
                ).len() == 0 {
                    m == "empty CGI Status header"@
                } else {
                    m == "invalid CGI status `"@ + value + "`"@
                },
            }
        },
        crate::cgi::output_lines(
            OutputHead { status: 200, headers: Seq::empty() },
            crate::text::lines(head),
        ) matches Ok(read) ==> (!(100 <= read.status <= 599) ==> output_response(head, body) == Err::<
            crate::response::ResponseView,
            Seq<char>,
        >("invalid CGI status "@ + decimal(read.status))),
{
}

/// What is said of a form without a boundary.
pub proof fn law_form_without_a_boundary(request: RequestView)
    ensures
        request.field("content-type"@) is None ==> sent_file(request) == Err::<FileView, Seq<char>>(
            "multipart request has no Content-Type"@,
        ),
        request.field("content-type"@) matches Some(t) ==> (boundary(t) is None ==> sent_file(
            request,
        ) == Err::<FileView, Seq<char>>("multipart boundary is missing"@)),
{
}

/// What is said of a directive that a location cannot have: the location, and what is wrong.
pub proof fn law_refused_location_directives(r: RouteView, parts: Seq<Seq<char>>)
    ensures
        route_directive(r, parts) matches Err(m) ==> {
            let front = "location "@ + r.path + ": "@;
            &&& parts.len() > 0
            &&& parts[0] == "methods"@ ==> m == front + "methods list is empty"@
            &&& parts[0] == "root"@ ==> m == front + "invalid root"@
            &&& parts[0] == "index"@ ==> m == front + "invalid index"@
            &&& parts[0] == "autoindex"@ ==> m == front + "autoindex must be on/off"@
            &&& parts[0] == "return"@ ==> m == front + (if parts.len() != 3 {
                "invalid return directive"@
            } else if number(parts[1], 10, 65535) is None {
                "invalid redirect status"@
            } else {
                "redirect status must be 3xx"@
            })
            &&& parts[0] == "cgi_extension"@ ==> m == front + "invalid cgi_extension"@
            &&& parts[0] != "methods"@ && parts[0] != "root"@ && parts[0] != "index"@ && parts[0]
                != "autoindex"@ && parts[0] != "return"@ && parts[0] != "cgi_extension"@ ==> m
                == "location "@ + r.path + ": unknown directive `"@ + parts[0] + "`"@
        },
{
    crate::laws::configuration::lemma_names_differ();
}

/// What is said of a directive that a server cannot have.
pub proof fn law_refused_server_directives(s: ServerView, line: Seq<char>)
    ensures
        server_directive(s, line) matches Err(m) ==> {
            let parts = directive(line);
            &&& parts.len() > 0
            &&& parts[0] == "listen"@ ==> m == (if parts.len() != 2 {
                "invalid listen directive: "@ + line
            } else if listen_addr(parts[1]) is None {
                "invalid listen address: "@ + parts[1]
            } else {
                "duplicate listen directive in one server: "@ + addr_text(listen_addr(parts[1])->0)
            })
            &&& parts[0] == "server_name"@ ==> m == "server_name needs at least one name"@
            &&& parts[0] == "client_max_body_size"@ && parts.len() != 2 ==> m
                == "invalid client_max_body_size: "@ + line
            &&& parts[0] == "error_page"@ ==> m == (if parts.len() != 3 {
                "invalid error_page directive: "@ + line
            } else {
                "invalid error status: "@ + parts[1]
            })
            &&& parts[0] != "listen"@ && parts[0] != "server_name"@ && parts[0]
                != "client_max_body_size"@ && parts[0] != "error_page"@ ==> m
                == "unknown server directive `"@ + parts[0] + "`"@
        },
        size_value(line) matches Err(m) ==> m == "invalid size `"@ + line + "`"@ || m == "size `"@
            + line + "` is too large"@,
{
    crate::laws::servers::lemma_server_names_differ();
}

/// What is said of a block without a listener, without locations, or without one for `/`.
pub proof fn law_refused_blocks(lines: Seq<Seq<char>>)
    ensures
        server_lines(crate::config::empty_server(), lines) matches Ok(s) ==> {
            &&& s.listens.len() == 0 ==> server_of(lines) == Err::<ServerView, Seq<char>>(
                "server has no listen directive"@,
            )
            &&& s.listens.len() > 0 && s.routes.len() == 0 ==> server_of(lines) == Err::<
                ServerView,
                Seq<char>,
            >("server has no locations"@)
            &&& s.listens.len() > 0 && s.routes.len() > 0 && (forall|k: int|
                0 <= k < s.routes.len() ==> (#[trigger] s.routes[k]).path != "/"@) ==> server_of(
                lines,
            ) == Err::<ServerView, Seq<char>>("server needs a `/` location"@)
        },
        server_lines(crate::config::empty_server(), lines) matches Err(m) ==> server_of(lines)
            == Err::<ServerView, Seq<char>>(m),
{
    if let Ok(s) = server_lines(crate::config::empty_server(), lines) {
        crate::config::lemma_root_index(s.routes);
    }
}

/// What is said of a line that does not fit, with its number, and of a block that is skipped, with
/// its number.
pub proof fn law_refused_lines_are_numbered(
    b: Blocks,
    line: Seq<char>,
    r: ReportView,
    block: Seq<Seq<char>>,
    n: int,
)
    ensures
        add_line(b, line, n) matches Err(m) ==> m == "line "@ + decimal(n) + (if b.depth == 0 {
            ": expected `server {`"@
        } else {
            ": unmatched closing brace"@
        }),
        server_of(block) matches Err(m) ==> add_block(r, block, n).warnings == r.warnings.push(
            "server #"@ + decimal(n) + " skipped: "@ + m,
        ),
        server_of(block) matches Ok(s) ==> (conflict_from(r.servers, s, 0) matches Some(a)
            ==> add_block(r, block, n).warnings == r.warnings.push(
            "server #"@ + decimal(n) + " skipped: "@ + ("conflicting server block on "@ + addr_text(
                a,
            )),
        )),
{
}

} // verus!
