//! Requests: what is accepted and refused, and what a request announces.

use crate::chunk::{chunks, crlf_crlf, Decoded};
use crate::http::{
    framing, head, header_line, header_lines, is_method_char, law_parse_consumes_a_prefix, parse,
    request_line, target_parts, Framing, HeadView, ParseView, RequestView,
};
use crate::laws::texts::{law_cut_at_a_character, law_white_space};
use crate::number::number;
use crate::text::{
    find, first, lemma_first_from, lemma_one_word, lemma_words_append, lemma_words_trim, lower,
    same_ignoring_case, split_by, trim, trim_start, upper, upper_char, words, CharSet,
};
use crate::wire::{is_token, law_chunked_is_named, lists_chunked};
use vstd::prelude::*;
use vstd::utf8::{decode_utf8, valid_utf8};

verus! {

/// Of a request line that is accepted, the method, the target and the version are its three words;
/// the method is of letters and dashes and is taken in upper case, the version is known, and the
/// target is a path with a query after the first question mark.
pub proof fn law_accepted_request_line(line: Seq<char>)
    ensures
        request_line(line) matches Ok(r) ==> {
            let parts = words(line, CharSet::Space);
            &&& parts.len() == 3
            &&& r.method == upper(parts[0])
            &&& forall|i: int|
                0 <= i < parts[0].len() ==> ('A' <= #[trigger] parts[0][i] <= 'Z' || 'a'
                    <= parts[0][i] <= 'z' || parts[0][i] == '-')
            &&& r.target == parts[1]
            &&& r.version == parts[2] && (r.version == "HTTP/1.1"@ || r.version == "HTTP/1.0"@)
            &&& r.path.len() > 0 && r.path[0] == '/' && !r.path.contains('?')
            &&& r.target == r.path && r.query.len() == 0 || r.target == r.path + seq!['?'] + r.query
            &&& r.headers == Map::<Seq<char>, Seq<char>>::empty() && r.body.len() == 0
        },
{
    if let Ok(r) = request_line(line) {
        let parts = words(line, CharSet::Space);
        let set = CharSet::Only('?');
        let target = parts[1];
        let k = first(target, set);
        lemma_first_from(target, set, 0);
        if k < target.len() {
            assert(target =~= target.take(k) + seq!['?'] + target.skip(k + 1));
        }
        if r.path.contains('?') {
            let j = r.path.index_of('?');
            assert(set.has(target[j]));
        }
        assert forall|i: int| 0 <= i < parts[0].len() implies ('A' <= #[trigger] parts[0][i] <= 'Z'
            || 'a' <= parts[0][i] <= 'z' || parts[0][i] == '-') by {
            assert(upper(parts[0])[i] == upper_char(parts[0][i]));
        }
    }
}

/// A request line is accepted exactly where it has three words: a method of letters and dashes, in
/// either case, a target that starts with a slash, and a version of HTTP that is known.
pub proof fn law_when_a_request_line_is_accepted(line: Seq<char>)
    ensures
        ({
            let parts = words(line, CharSet::Space);
            request_line(line) is Ok <==> parts.len() == 3 && (forall|i: int|
                0 <= i < parts[0].len() ==> ('A' <= #[trigger] parts[0][i] <= 'Z' || 'a'
                    <= parts[0][i] <= 'z' || parts[0][i] == '-')) && parts[1].len() > 0
                && parts[1][0] == '/' && (parts[2] == "HTTP/1.1"@ || parts[2] == "HTTP/1.0"@)
        }),
{
    law_accepted_request_line(line);
    let parts = words(line, CharSet::Space);
    if parts.len() == 3 {
        let target = parts[1];
        let set = CharSet::Only('?');
        let k = first(target, set);
        lemma_first_from(target, set, 0);
        let method = upper(parts[0]);
        if forall|i: int|
            0 <= i < parts[0].len() ==> ('A' <= #[trigger] parts[0][i] <= 'Z' || 'a' <= parts[0][i]
                <= 'z' || parts[0][i] == '-') {
            assert forall|i: int| 0 <= i < method.len() implies is_method_char(
                #[trigger] method[i],
            ) by {
                assert(method[i] == upper_char(parts[0][i]));
            }
        }
    }
}

/// A method, a target and a version with a space between them make up a request line: every method
/// of letters is taken, in upper case, with every target without white space that starts with a
/// slash.
pub proof fn law_request_line_as_written(method: Seq<char>, target: Seq<char>, version: Seq<char>)
    requires
        method.len() > 0,
        forall|i: int|
            0 <= i < method.len() ==> ('A' <= #[trigger] method[i] <= 'Z' || 'a' <= method[i]
                <= 'z'),
        target.len() > 0,
        target[0] == '/',
        is_token(target),
        version == "HTTP/1.1"@ || version == "HTTP/1.0"@,
    ensures
        request_line(method + seq![' '] + target + seq![' '] + version) matches Ok(r) && r.method
            == upper(method) && r.target == target && r.version == version,
        (forall|i: int| 0 <= i < method.len() ==> 'A' <= #[trigger] method[i] <= 'Z') ==> upper(
            method,
        ) == method,
{
    let set = CharSet::Space;
    let line = method + seq![' '] + target + seq![' '] + version;
    let tail = seq![' '] + version;
    let middle = target + tail;
    let rest = seq![' '] + middle;
    reveal_strlit("HTTP/1.1");
    reveal_strlit("HTTP/1.0");
    assert forall|j: int| 0 <= j < method.len() implies !set.has(#[trigger] method[j]) by {}
    assert forall|j: int| 0 <= j < target.len() implies !set.has(#[trigger] target[j]) by {
        law_white_space(target[j]);
    }
    assert forall|j: int| 0 <= j < version.len() implies !set.has(#[trigger] version[j]) by {}
    lemma_one_word(method, set);
    lemma_one_word(target, set);
    lemma_one_word(version, set);
    assert(line =~= method + rest);
    assert(set.has(' '));
    assert(rest[0] == ' ' && tail[0] == ' ');
    lemma_words_append(method, rest, set);
    lemma_space_before(middle);
    lemma_words_append(target, tail, set);
    lemma_space_before(version);
    assert(words(line, set) =~= seq![method, target, version]);
    law_accepted_request_line(line);
    law_when_a_request_line_is_accepted(line);
    if forall|i: int| 0 <= i < method.len() ==> 'A' <= #[trigger] method[i] <= 'Z' {
        assert(upper(method) =~= method);
    }
}

proof fn lemma_space_before(s: Seq<char>)
    ensures
        words(seq![' '] + s, CharSet::Space) == words(s, CharSet::Space),
{
    let t = seq![' '] + s;
    assert(t.skip(1) =~= s);
    assert(CharSet::Space.has(t[0]));
    assert(trim_start(t, CharSet::Space) == trim_start(s, CharSet::Space));
    lemma_words_trim(t, CharSet::Space);
    lemma_words_trim(s, CharSet::Space);
}

/// The path and the query of a target are what stands before and after its first question mark.
pub proof fn law_target_has_path_and_query(path: Seq<char>, query: Seq<char>)
    requires
        !path.contains('?'),
    ensures
        target_parts(path) == (path, Seq::<char>::empty()),
        target_parts(path + seq!['?'] + query) == (path, query),
{
    law_cut_at_a_character(path, query, '?');
}

/// A header line that is accepted gives one header: the name before the first colon in lower case,
/// the value after it, both without the white space around them. A line without a colon, or with
/// another character in the name, is refused, and so is a second Content-Length that differs.
pub proof fn law_header_line(
    left: Seq<char>,
    right: Seq<char>,
    headers: Map<Seq<char>, Seq<char>>,
)
    requires
        !left.contains(':'),
    ensures
        left.len() > 0 ==> header_line(left, headers) is Err,
        ({
            let name = lower(trim(left));
            let proper = name.len() > 0 && forall|i: int|
                0 <= i < name.len() ==> ('A' <= #[trigger] name[i] <= 'Z' || 'a' <= name[i] <= 'z'
                    || '0' <= name[i] <= '9' || name[i] == '-' || name[i] == '_');
            let conflicts = name == "content-length"@ && headers.dom().contains(name)
                && headers[name] != trim(right);
            &&& proper && !conflicts ==> header_line(left + seq![':'] + right, headers) == Ok::<
                Map<Seq<char>, Seq<char>>,
                Seq<char>,
            >(headers.insert(name, trim(right)))
            &&& !proper || conflicts ==> header_line(left + seq![':'] + right, headers) is Err
        }),
{
    law_cut_at_a_character(left, right, ':');
}

/// A request whose headers both give a length and name a coding is refused; so are a coding other
/// than the chunked one, a length that is no number, and a length above the limit. Without either
/// there is no body.
pub proof fn law_body_framing(headers: Map<Seq<char>, Seq<char>>, limit: int)
    requires
        0 <= limit <= usize::MAX,
    ensures
        ({
            let coded = headers.dom().contains("transfer-encoding"@);
            let sized = headers.dom().contains("content-length"@);
            let length = number(headers["content-length"@], 10, usize::MAX as int);
            &&& coded && sized ==> framing(headers, limit) is Err
            &&& coded && !lists_chunked(headers["transfer-encoding"@]) ==> framing(
                headers,
                limit,
            ) is Err
            &&& coded && !sized && lists_chunked(headers["transfer-encoding"@]) ==> framing(
                headers,
                limit,
            ) == Ok::<Framing, Seq<char>>(Framing::Chunked)
            &&& sized && length is None ==> framing(headers, limit) is Err
            &&& sized && length is Some && length->0 > limit ==> framing(headers, limit) is Err
            &&& sized && !coded && length is Some && length->0 <= limit ==> (framing(
                headers,
                limit,
            ) matches Ok(Framing::Length(n)) && n == length->0)
            &&& !coded && !sized ==> framing(headers, limit) == Ok::<Framing, Seq<char>>(
                Framing::Empty,
            )
        }),
{
    law_chunked_is_named(headers["transfer-encoding"@]);
    crate::number::lemma_number_range(headers["content-length"@], 10, usize::MAX as int);
}

/// No request is complete but one with a Host header, or of the older version; nor one that is
/// longer than the limit, body included.
pub proof fn law_complete_request(buffer: Seq<u8>, limit: int)
    ensures
        buffer.len() > limit ==> parse(buffer, limit) is Error,
        parse(buffer, limit) matches ParseView::Complete { request, consumed } ==> {
            &&& request.version == "HTTP/1.1"@ || request.version == "HTTP/1.0"@
            &&& request.version == "HTTP/1.1"@ ==> request.headers.dom().contains("host"@)
            &&& consumed <= buffer.len() <= limit
            &&& request.path.len() > 0 && request.path[0] == '/'
        },
{
    law_parse_consumes_a_prefix(buffer, limit);
    if let Some(end) = find(buffer, crlf_crlf()) {
        law_accepted_request_line(split_by(decode_utf8(buffer.take(end)), "\r\n"@)[0]);
    }
}

/// The head of a request ends with the first empty line, and is waited for until then. It is
/// refused exactly where it is no text, where one of its lines is refused, where a request of the
/// newer version names no host, or where the body is announced in a way that is refused.
pub proof fn law_when_a_head_is_refused(buffer: Seq<u8>, limit: int)
    ensures
        find(buffer, seq![13u8, 10, 13, 10]) is None <==> head(buffer, limit) is NeedMore,
        find(buffer, seq![13u8, 10, 13, 10]) matches Some(end) ==> {
            let lines = split_by(decode_utf8(buffer.take(end)), "\r\n"@);
            let first = request_line(lines[0]);
            let fields = header_lines(lines.skip(1), Map::empty());
            let named = fields matches Ok(headers) && headers.dom().contains("host"@);
            let older = first matches Ok(line) && line.version == "HTTP/1.0"@;
            let framed = fields matches Ok(headers) && framing(headers, limit) is Ok;
            &&& head(buffer, limit) is Error <==> !(valid_utf8(buffer.take(end)) && first is Ok
                && fields is Ok && (named || older) && framed)
            &&& head(buffer, limit) matches HeadView::Complete {
                head: r,
                body_start,
                framing: found,
            } ==> body_start == end + 4 && Ok::<Framing, Seq<char>>(found) == framing(
                r.headers,
                limit,
            ) && Ok::<Map<Seq<char>, Seq<char>>, Seq<char>>(r.headers) == fields && r.method
                == (first->Ok_0).method && r.target == (first->Ok_0).target && r.path
                == (first->Ok_0).path && r.query == (first->Ok_0).query && r.version
                == (first->Ok_0).version
        },
{
    assert(crlf_crlf() =~= seq![13u8, 10, 13, 10]);
    reveal_strlit("HTTP/1.1");
    reveal_strlit("HTTP/1.0");
    assert("HTTP/1.1"@[7] != "HTTP/1.0"@[7]);
    if let Some(end) = find(buffer, crlf_crlf()) {
        law_accepted_request_line(split_by(decode_utf8(buffer.take(end)), "\r\n"@)[0]);
    }
}

/// Header lines are taken one after the other, each with those before it; none is left out.
pub proof fn law_header_lines_in_turn(
    lines: Seq<Seq<char>>,
    line: Seq<char>,
    headers: Map<Seq<char>, Seq<char>>,
)
    ensures
        header_lines(Seq::empty(), headers) == Ok::<Map<Seq<char>, Seq<char>>, Seq<char>>(headers),
        header_lines(lines.push(line), headers) == match header_lines(lines, headers) {
            Err(m) => Err(m),
            Ok(so_far) => header_line(line, so_far),
        },
    decreases lines.len(),
{
    let all = lines.push(line);
    if lines.len() == 0 {
        assert(all.skip(1) =~= Seq::<Seq<char>>::empty());
        if let Ok(next) = header_line(line, headers) {
            assert(header_lines(all.skip(1), next) == Ok::<Map<Seq<char>, Seq<char>>, Seq<char>>(
                next,
            ));
        }
    } else {
        assert(all[0] == lines[0]);
        assert(all.skip(1) =~= lines.skip(1).push(line));
        if let Ok(next) = header_line(lines[0], headers) {
            law_header_lines_in_turn(lines.skip(1), line, next);
        }
    }
}

/// A body of announced length is what follows the head, as long as announced, and is waited for
/// until it has arrived; a request without a body ends with its head; and a chunked body is what
/// its chunks decode to.
pub proof fn law_body_follows_the_head_of_a_request(buffer: Seq<u8>, limit: int)
    requires
        buffer.len() <= limit,
    ensures
        head(buffer, limit) is NeedMore ==> parse(buffer, limit) is NeedMore,
        head(buffer, limit) is Error ==> parse(buffer, limit) is Error,
        head(buffer, limit) matches HeadView::Complete { head: r, body_start, framing: f } ==> {
            let found = parse(buffer, limit);
            &&& found matches ParseView::Complete { request, .. } ==> request.headers == r.headers
                && request.method == r.method && request.target == r.target && request.path
                == r.path && request.query == r.query && request.version == r.version
            &&& f is Empty ==> (found matches ParseView::Complete { request, consumed } && consumed
                == body_start && request.body == r.body)
            &&& f matches Framing::Length(n) ==> {
                &&& buffer.len() < body_start + n ==> found is NeedMore
                &&& buffer.len() >= body_start + n ==> (found matches ParseView::Complete {
                    request,
                    consumed,
                } && consumed == body_start + n && request.body == buffer.subrange(
                    body_start,
                    body_start + n,
                ))
            }
            &&& f is Chunked ==> match chunks(buffer.skip(body_start), 0, Seq::empty(), limit) {
                Decoded::NeedMore { .. } => found is NeedMore,
                Decoded::Error(_) => found is Error,
                Decoded::Done { body, used } => found matches ParseView::Complete {
                    request,
                    consumed,
                } && consumed == body_start + used && request.body == body,
            }
        },
{
}

/// A header is found by its name in any case, and by nothing else.
pub proof fn law_header_is_found_by_name(r: RequestView, name: Seq<char>, other: Seq<char>)
    ensures
        r.field(name) is Some <==> r.headers.dom().contains(lower(name)),
        r.field(name) matches Some(v) ==> v == r.headers[lower(name)],
        same_ignoring_case(name, other) ==> r.field(name) == r.field(other),
{
}

/// The host is the value of the Host header, or nothing.
pub proof fn law_host_of_a_request(r: RequestView)
    ensures
        r.headers.dom().contains("host"@) ==> r.host() == r.headers["host"@],
        !r.headers.dom().contains("host"@) ==> r.host() == Seq::<char>::empty(),
{
    lemma_lower_literal_host();
}

proof fn lemma_lower_literal_host()
    ensures
        lower("host"@) == "host"@,
        lower("connection"@) == "connection"@,
        lower("content-type"@) == "content-type"@,
        lower("cookie"@) == "cookie"@,
        lower("x-filename"@) == "x-filename"@,
{
    reveal_strlit("host");
    reveal_strlit("connection");
    reveal_strlit("content-type");
    reveal_strlit("cookie");
    reveal_strlit("x-filename");
    assert(lower("host"@) =~= "host"@);
    assert(lower("connection"@) =~= "connection"@);
    assert(lower("content-type"@) =~= "content-type"@);
    assert(lower("cookie"@) =~= "cookie"@);
    assert(lower("x-filename"@) =~= "x-filename"@);
}

/// The names that the server looks for are written in lower case, as headers are stored.
pub proof fn law_known_names(r: RequestView)
    ensures
        r.field("content-type"@) is Some <==> r.headers.dom().contains("content-type"@),
        r.field("content-type"@) matches Some(v) ==> v == r.headers["content-type"@],
        r.field("cookie"@) is Some <==> r.headers.dom().contains("cookie"@),
        r.field("cookie"@) matches Some(v) ==> v == r.headers["cookie"@],
        r.field("x-filename"@) is Some <==> r.headers.dom().contains("x-filename"@),
        r.field("x-filename"@) matches Some(v) ==> v == r.headers["x-filename"@],
        r.field("connection"@) is Some <==> r.headers.dom().contains("connection"@),
        r.field("connection"@) matches Some(v) ==> v == r.headers["connection"@],
{
    lemma_lower_literal_host();
}

/// Connections persist with HTTP/1.1 unless the client asks to close them, and with HTTP/1.0 only
/// where it asks to keep them.
pub proof fn law_persistence(r: RequestView)
    requires
        r.target.len() > 0,
    ensures
        ({
            let asked = r.headers.dom().contains("connection"@);
            let wish = r.headers["connection"@];
            &&& r.version == "HTTP/1.1"@ ==> (r.wants_close() <==> asked && same_ignoring_case(
                wish,
                "close"@,
            ))
            &&& r.version == "HTTP/1.0"@ ==> (r.wants_close() <==> !(asked && same_ignoring_case(
                wish,
                "keep-alive"@,
            )))
        }),
{
    lemma_lower_literal_host();
    reveal_strlit("HTTP/1.1");
    reveal_strlit("HTTP/1.0");
    assert("HTTP/1.1"@[7] != "HTTP/1.0"@[7]);
}

} // verus!
