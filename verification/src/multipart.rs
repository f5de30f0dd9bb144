//! Files in multipart form data.

use crate::chunk::{crlf, crlf_crlf, find_bytes};
use crate::http::{Request, RequestView};
use crate::text::{
    find, has_prefix_str, law_text_is_shown_as_written, lemma_find_extend, lemma_find_from,
    lemma_find_is, lines, lines_slice, lower, lower_slice, occurs_at, same_bytes, show_bytes,
    shown_text, split, split_slice, starts_with, texts, to_chars, to_text, trim, trim_both,
    trim_both_slice, trim_slice, CharSet,
};
use crate::util::{safe_name, sanitize_filename, string_text};
use vstd::prelude::*;
use vstd::slice::{slice_subrange, slice_to_vec};
use vstd::utf8::encode_utf8;

verus! {

/// What follows the prefix in the first of the parts that starts with it, once the space around
/// the parts is left out.
pub open spec fn after_prefix(parts: Seq<Seq<char>>, prefix: Seq<char>) -> Option<Seq<char>>
    decreases parts.len(),
{
    if parts.len() == 0 {
        None
    } else if starts_with(trim(parts[0]), prefix) {
        Some(trim(parts[0]).skip(prefix.len() as int))
    } else {
        after_prefix(parts.skip(1), prefix)
    }
}

fn parameter<'a>(text: &'a [char], prefix: &str) -> (r: Option<&'a [char]>)
    ensures
        match r {
            Some(v) => after_prefix(split(text@, CharSet::Only(';')), prefix@) == Some(v@),
            None => after_prefix(split(text@, CharSet::Only(';')), prefix@) is None,
        },
{
    let parts = split_slice(text, CharSet::Only(';'));
    let ghost t = split(text@, CharSet::Only(';'));
    assert(t.skip(0) =~= t);
    let n: usize = to_chars(prefix).len();
    let mut i: usize = 0;
    while i < parts.len()
        invariant
            0 <= i <= parts@.len(),
            texts(parts@) == t,
            n == prefix@.len(),
            t == split(text@, CharSet::Only(';')),
            after_prefix(t, prefix@) == after_prefix(t.skip(i as int), prefix@),
        decreases parts.len() - i,
    {
        assert(t.skip(i as int)[0] == parts@[i as int]@);
        assert(t.skip(i as int).skip(1) =~= t.skip(i + 1));
        let part = trim_slice(parts[i]);
        if has_prefix_str(part, prefix) {
            let end: usize = part.len();
            return Some(slice_subrange(part, n, end));
        }
        i = i + 1;
    }
    None
}

/// The boundary that a content type names.
pub open spec fn boundary(content_type: Seq<char>) -> Option<Seq<char>> {
    match after_prefix(split(content_type, CharSet::Only(';')), "boundary="@) {
        Some(v) => if trim_both(v, CharSet::Only('"')).len() > 0 {
            Some(trim_both(v, CharSet::Only('"')))
        } else {
            None
        },
        None => None,
    }
}

/// The line describes how a part is to be used.
pub open spec fn is_disposition(line: Seq<char>) -> bool {
    starts_with(lower(line), "content-disposition:"@)
}

/// The file name that the first of the lines to give one gives.
pub open spec fn file_name(lines: Seq<Seq<char>>) -> Option<Seq<char>>
    decreases lines.len(),
{
    if lines.len() == 0 {
        None
    } else {
        match after_prefix(split(lines[0], CharSet::Only(';')), "filename="@) {
            Some(v) => if is_disposition(lines[0]) {
                Some(trim_both(v, CharSet::Only('"')))
            } else {
                file_name(lines.skip(1))
            },
            None => file_name(lines.skip(1)),
        }
    }
}

/// The file name that the headers of a part give.
pub fn multipart_filename(headers: &str) -> (r: Option<String>)
    ensures
        string_text(r) == file_name(lines(headers@)),
{
    let chars = to_chars(headers);
    let all = lines_slice(chars.as_slice());
    let ghost t = lines(headers@);
    assert(t.skip(0) =~= t);
    let mut i: usize = 0;
    while i < all.len()
        invariant
            0 <= i <= all@.len(),
            texts(all@) == t,
            t == lines(headers@),
            file_name(t) == file_name(t.skip(i as int)),
        decreases all.len() - i,
    {
        assert(t.skip(i as int)[0] == all@[i as int]@);
        assert(t.skip(i as int).skip(1) =~= t.skip(i + 1));
        if has_prefix_str(lower_slice(all[i]).as_slice(), "content-disposition:") {
            match parameter(all[i], "filename=") {
                Some(v) => {
                    return Some(to_text(trim_both_slice(v, CharSet::Only('"'))));
                },
                None => {},
            }
        }
        i = i + 1;
    }
    None
}

/// Two dashes.
pub open spec fn dashes() -> Seq<u8> {
    seq![45u8, 45u8]
}

/// The line that starts a part.
pub open spec fn marker(boundary: Seq<char>) -> Seq<u8> {
    dashes() + encode_utf8(boundary)
}

/// What ends the data of a part.
pub open spec fn next_marker(boundary: Seq<char>) -> Seq<u8> {
    crlf() + marker(boundary)
}

/// A file that was sent: its name and its content.
pub type FileView = (Seq<char>, Seq<u8>);

/// The first file among the parts of a body from `pos` on.
pub open spec fn first_file(body: Seq<u8>, boundary: Seq<char>, pos: int) -> Result<
    FileView,
    Seq<char>,
>
    decreases body.len() - pos,
{
    proof {
        lemma_find_from(body.skip(pos), marker(boundary), 0);
    }
    match find(body.skip(pos), marker(boundary)) {
        None => Err("multipart body contains no file part"@),
        Some(at) => {
            let start = pos + at + marker(boundary).len();
            if occurs_at(body, dashes(), start) {
                Err("multipart body contains no file part"@)
            } else if !occurs_at(body, crlf(), start) {
                Err("malformed multipart boundary"@)
            } else {
                proof {
                    lemma_find_from(body.skip(start + 2), crlf_crlf(), 0);
                }
                match find(body.skip(start + 2), crlf_crlf()) {
                    None => Err("malformed multipart headers"@),
                    Some(length) => {
                        let data = start + 2 + length + 4;
                        proof {
                            lemma_find_from(body.skip(data), next_marker(boundary), 0);
                        }
                        match find(body.skip(data), next_marker(boundary)) {
                            None => Err("unterminated multipart part"@),
                            Some(size) => match file_name(
                                lines(shown_text(body.subrange(start + 2, start + 2 + length))),
                            ) {
                                Some(name) => match safe_name(name) {
                                    Some(safe) => Ok((safe, body.subrange(data, data + size))),
                                    None => Err("invalid multipart filename"@),
                                },
                                None => first_file(body, boundary, data + size + 2),
                            },
                        }
                    },
                }
            }
        },
    }
}

/// The file that a request sends as multipart form data.
pub open spec fn sent_file(request: RequestView) -> Result<FileView, Seq<char>> {
    match request.field("content-type"@) {
        None => Err("multipart request has no Content-Type"@),
        Some(content_type) => match boundary(content_type) {
            None => Err("multipart boundary is missing"@),
            Some(b) => first_file(request.body, b, 0),
        },
    }
}

fn occurs(body: &[u8], needle: &[u8], at: usize) -> (r: bool)
    requires
        at <= body@.len(),
    ensures
        r == occurs_at(body@, needle@, at as int),
{
    let n: usize = needle.len();
    let total: usize = body.len();
    if total - at < n {
        return false;
    }
    same_bytes(slice_subrange(body, at, at + n), needle)
}

fn find_after(body: &[u8], needle: &[u8], at: usize) -> (r: Option<usize>)
    requires
        at <= body@.len(),
        needle@.len() > 0,
    ensures
        match r {
            Some(k) => at <= k && find(body@.skip(at as int), needle@) == Some(k - at) && k
                + needle@.len() <= body@.len(),
            None => find(body@.skip(at as int), needle@) is None,
        },
{
    let total: usize = body.len();
    match find_bytes(slice_subrange(body, at, total), needle) {
        Some(k) => Some(at + k),
        None => None,
    }
}

fn file_of(name: &str, content: &[u8]) -> (r: Result<(String, Vec<u8>), String>)
    ensures
        match (r, safe_name(name@)) {
            (Ok((n, c)), Some(safe)) => n@ == safe && c@ == content@,
            (Err(m), None) => m@ == "invalid multipart filename"@,
            _ => false,
        },
{
    match sanitize_filename(name) {
        Some(safe) => Ok((safe, slice_to_vec(content))),
        None => Err("invalid multipart filename".to_owned()),
    }
}

/// The result agrees with what is said of the file.
pub open spec fn file_matches(
    r: Result<(String, Vec<u8>), String>,
    file: Result<FileView, Seq<char>>,
) -> bool {
    match (r, file) {
        (Ok((name, content)), Ok((n, c))) => name@ == n && content@ == c,
        (Err(m), Err(message)) => m@ == message,
        _ => false,
    }
}

fn find_file(body: &[u8], boundary: &str) -> (r: Result<(String, Vec<u8>), String>)
    ensures
        file_matches(r, first_file(body@, boundary@, 0)),
{
    let dash: [u8; 2] = [45, 45];
    let line_end: [u8; 2] = [13, 10];
    let empty_line: [u8; 4] = [13, 10, 13, 10];
    assert(dash@ =~= dashes());
    assert(line_end@ =~= crlf());
    assert(empty_line@ =~= crlf_crlf());
    let mut start_marker: Vec<u8> = Vec::new();
    start_marker.extend_from_slice(dash.as_slice());
    start_marker.extend_from_slice(boundary.as_bytes());
    assert(start_marker@ =~= marker(boundary@));
    let mut end_marker: Vec<u8> = Vec::new();
    end_marker.extend_from_slice(line_end.as_slice());
    end_marker.extend_from_slice(start_marker.as_slice());
    assert(end_marker@ =~= next_marker(boundary@));
    let mut pos: usize = 0;
    let total: usize = body.len();
    let ghost goal = first_file(body@, boundary@, 0);
    loop
        invariant
            pos <= total,
            total == body@.len(),
            dash@ == dashes(),
            line_end@ == crlf(),
            empty_line@ == crlf_crlf(),
            start_marker@ == marker(boundary@),
            end_marker@ == next_marker(boundary@),
            goal == first_file(body@, boundary@, 0),
            goal == first_file(body@, boundary@, pos as int),
        decreases total - pos,
    {
        let n: usize = start_marker.len();
        let start: usize = match find_after(body, start_marker.as_slice(), pos) {
            None => {
                return Err("multipart body contains no file part".to_owned());
            },
            Some(at) => at + n,
        };
        if occurs(body, dash.as_slice(), start) {
            return Err("multipart body contains no file part".to_owned());
        }
        if !occurs(body, line_end.as_slice(), start) {
            return Err("malformed multipart boundary".to_owned());
        }
        let headers_end: usize = match find_after(body, empty_line.as_slice(), start + 2) {
            None => {
                return Err("malformed multipart headers".to_owned());
            },
            Some(end) => end,
        };
        let data: usize = headers_end + 4;
        let data_end: usize = match find_after(body, end_marker.as_slice(), data) {
            None => {
                return Err("unterminated multipart part".to_owned());
            },
            Some(end) => end,
        };
        let headers = show_bytes(slice_subrange(body, start + 2, headers_end));
        match multipart_filename(headers.as_str()) {
            Some(name) => {
                return file_of(name.as_str(), slice_subrange(body, data, data_end));
            },
            None => {},
        }
        pos = data_end + 2;
    }
}

/// The file that a request sends as multipart form data: a safe name, and the content.
pub fn parse_multipart_file(request: &Request) -> (r: Result<(String, Vec<u8>), String>)
    ensures
        file_matches(r, sent_file(request@)),
{
    let content_type = match request.header("content-type") {
        None => {
            return Err("multipart request has no Content-Type".to_owned());
        },
        Some(v) => v,
    };
    let chars = to_chars(content_type);
    match parameter(chars.as_slice(), "boundary=") {
        None => Err("multipart boundary is missing".to_owned()),
        Some(v) => {
            let b = trim_both_slice(v, CharSet::Only('"'));
            if b.len() == 0 {
                return Err("multipart boundary is missing".to_owned());
            }
            find_file(request.body.as_slice(), to_text(b).as_str())
        },
    }
}

/// A part of a form: its headers and its data.
pub struct PartView {
    pub headers: Seq<u8>,
    pub data: Seq<u8>,
}

impl PartView {
    /// The file name that the headers give.
    pub open spec fn name(self) -> Option<Seq<char>> {
        file_name(lines(shown_text(self.headers)))
    }

    /// The headers hold no empty line and the data does not hold the boundary, as the format asks.
    pub open spec fn is_framed(self, boundary: Seq<char>) -> bool {
        &&& find(self.headers + crlf_crlf(), crlf_crlf()) == Some(self.headers.len() as int)
        &&& find(self.data + next_marker(boundary), next_marker(boundary)) == Some(
            self.data.len() as int,
        )
    }

    /// The part as it is sent.
    pub open spec fn written(self, boundary: Seq<char>) -> Seq<u8> {
        marker(boundary) + crlf() + self.headers + crlf_crlf() + self.data + crlf()
    }
}

/// Parts as they are sent.
pub open spec fn written_parts(boundary: Seq<char>, parts: Seq<PartView>) -> Seq<u8>
    decreases parts.len(),
{
    if parts.len() == 0 {
        Seq::empty()
    } else {
        parts[0].written(boundary) + written_parts(boundary, parts.skip(1))
    }
}

/// A form with the given parts; after the boundary that ends them anything may follow: the end of
/// the form, or further parts.
pub open spec fn written_form(boundary: Seq<char>, parts: Seq<PartView>, rest: Seq<u8>) -> Seq<u8> {
    written_parts(boundary, parts) + marker(boundary) + rest
}

proof fn lemma_starts_with_marker(boundary: Seq<char>, parts: Seq<PartView>, rest: Seq<u8>)
    ensures
        written_form(boundary, parts, rest).len() >= marker(boundary).len(),
        written_form(boundary, parts, rest).take(marker(boundary).len() as int) == marker(boundary),
{
    let m = marker(boundary);
    let form = written_form(boundary, parts, rest);
    if parts.len() == 0 {
        assert(form.take(m.len() as int) =~= m);
    } else {
        let first = parts[0].written(boundary);
        assert(first.take(m.len() as int) =~= m);
        assert(form =~= first + written_form(boundary, parts.skip(1), rest));
        assert(form.take(m.len() as int) =~= first.take(m.len() as int));
    }
}

proof fn lemma_one_part(
    boundary: Seq<char>,
    done: Seq<u8>,
    part: PartView,
    after: Seq<u8>,
)
    requires
        part.is_framed(boundary),
        after.len() >= marker(boundary).len(),
        after.take(marker(boundary).len() as int) == marker(boundary),
    ensures
        ({
            let body = done + part.written(boundary) + after;
            let pos = done.len() as int;
            first_file(body, boundary, pos) == match part.name() {
                Some(name) => match safe_name(name) {
                    Some(safe) => Ok::<FileView, Seq<char>>((safe, part.data)),
                    None => Err("invalid multipart filename"@),
                },
                None => first_file(body, boundary, (done + part.written(boundary)).len() as int),
            }
        }),
{
    let body = done + part.written(boundary) + after;
    let pos = done.len() as int;
    let m = marker(boundary);
    let headers = part.headers;
    let data = part.data;
    let start = pos + m.len();
    let data_start = start + 2 + headers.len() + 4;
    assert(body.skip(pos).subrange(0, m.len() as int) =~= m);
    lemma_find_is(body.skip(pos), m, 0);
    assert(body.subrange(start, start + 2) =~= crlf());
    assert(body.subrange(start, start + 2)[0] == 13);
    assert(dashes()[0] == 45);
    assert(!occurs_at(body, dashes(), start));
    let after_headers = data + crlf() + after;
    assert(body.skip(start + 2) =~= (headers + crlf_crlf()) + after_headers);
    lemma_find_extend(headers + crlf_crlf(), after_headers, crlf_crlf());
    let tail = after.skip(m.len() as int);
    assert(after =~= m + tail);
    assert(body.skip(data_start) =~= (data + next_marker(boundary)) + tail);
    lemma_find_extend(data + next_marker(boundary), tail, next_marker(boundary));
    assert(body.subrange(start + 2, start + 2 + headers.len()) =~= headers);
    assert(body.subrange(data_start, data_start + data.len()) =~= data);
    assert(data_start + data.len() + 2 == (done + part.written(boundary)).len());
}

proof fn lemma_file_among_parts(
    boundary: Seq<char>,
    done: Seq<u8>,
    parts: Seq<PartView>,
    rest: Seq<u8>,
)
    requires
        parts.len() > 0,
        forall|k: int| 0 <= k < parts.len() ==> (#[trigger] parts[k]).is_framed(boundary),
        forall|k: int| 0 <= k < parts.len() - 1 ==> (#[trigger] parts[k]).name() is None,
        parts.last().name() is Some,
        safe_name(parts.last().name()->0) is Some,
    ensures
        first_file(done + written_form(boundary, parts, rest), boundary, done.len() as int) == Ok::<
            FileView,
            Seq<char>,
        >((safe_name(parts.last().name()->0)->0, parts.last().data)),
    decreases parts.len(),
{
    let part = parts[0];
    let later = parts.skip(1);
    let after = written_form(boundary, later, rest);
    let so_far = done + part.written(boundary);
    assert(part.is_framed(boundary));
    lemma_starts_with_marker(boundary, later, rest);
    lemma_one_part(boundary, done, part, after);
    assert(done + written_form(boundary, parts, rest) =~= so_far + after);
    if parts.len() > 1 {
        assert(parts[0].name() is None);
        assert(later.last() == parts.last());
        assert forall|k: int| 0 <= k < later.len() implies (#[trigger] later[k]).is_framed(
            boundary,
        ) && (k < later.len() - 1 ==> later[k].name() is None) by {
            assert(later[k] == parts[k + 1]);
        }
        lemma_file_among_parts(boundary, so_far, later, rest);
    }
}

/// A file that is sent in a form arrives as it was sent, byte for byte, under its name made safe.
/// Parts without a file name may come before it, and anything may follow it.
pub proof fn law_upload_keeps_the_data(
    boundary: Seq<char>,
    parts: Seq<PartView>,
    rest: Seq<u8>,
)
    requires
        parts.len() > 0,
        forall|k: int| 0 <= k < parts.len() ==> (#[trigger] parts[k]).is_framed(boundary),
        forall|k: int| 0 <= k < parts.len() - 1 ==> (#[trigger] parts[k]).name() is None,
        parts.last().name() is Some,
        safe_name(parts.last().name()->0) is Some,
    ensures
        first_file(written_form(boundary, parts, rest), boundary, 0) == Ok::<FileView, Seq<char>>(
            (safe_name(parts.last().name()->0)->0, parts.last().data),
        ),
{
    let none = Seq::<u8>::empty();
    lemma_file_among_parts(boundary, none, parts, rest);
    assert(none + written_form(boundary, parts, rest) =~= written_form(boundary, parts, rest));
}

/// A part whose headers are a text has the file name that the text gives.
pub proof fn law_part_name_is_read_as_written(headers: Seq<char>, data: Seq<u8>)
    ensures
        (PartView { headers: encode_utf8(headers), data }).name() == file_name(lines(headers)),
{
    law_text_is_shown_as_written(headers);
}

proof fn lemma_no_file_among_parts(
    boundary: Seq<char>,
    done: Seq<u8>,
    parts: Seq<PartView>,
    rest: Seq<u8>,
)
    requires
        forall|k: int|
            0 <= k < parts.len() ==> (#[trigger] parts[k]).is_framed(boundary)
                && parts[k].name() is None,
    ensures
        first_file(
            done + written_form(boundary, parts, dashes() + rest),
            boundary,
            done.len() as int,
        ) == Err::<FileView, Seq<char>>("multipart body contains no file part"@),
    decreases parts.len(),
{
    let end = dashes() + rest;
    let m = marker(boundary);
    if parts.len() == 0 {
        let body = done + written_form(boundary, parts, end);
        let pos = done.len() as int;
        assert(body.skip(pos).subrange(0, m.len() as int) =~= m);
        lemma_find_is(body.skip(pos), m, 0);
        assert(body.subrange(pos + m.len(), pos + m.len() + 2) =~= dashes());
    } else {
        let part = parts[0];
        let later = parts.skip(1);
        let after = written_form(boundary, later, end);
        let so_far = done + part.written(boundary);
        assert(part.is_framed(boundary));
        lemma_starts_with_marker(boundary, later, end);
        lemma_one_part(boundary, done, part, after);
        assert(done + written_form(boundary, parts, end) =~= so_far + after);
        assert forall|k: int| 0 <= k < later.len() implies (#[trigger] later[k]).is_framed(
            boundary,
        ) && later[k].name() is None by {
            assert(later[k] == parts[k + 1]);
        }
        lemma_no_file_among_parts(boundary, so_far, later, rest);
    }
}

/// A form that ends without a file is refused as such.
pub proof fn law_form_without_file_is_refused(
    boundary: Seq<char>,
    parts: Seq<PartView>,
    rest: Seq<u8>,
)
    requires
        forall|k: int|
            0 <= k < parts.len() ==> (#[trigger] parts[k]).is_framed(boundary)
                && parts[k].name() is None,
    ensures
        first_file(written_form(boundary, parts, dashes() + rest), boundary, 0) == Err::<
            FileView,
            Seq<char>,
        >("multipart body contains no file part"@),
{
    let none = Seq::<u8>::empty();
    lemma_no_file_among_parts(boundary, none, parts, rest);
    assert(none + written_form(boundary, parts, dashes() + rest) =~= written_form(
        boundary,
        parts,
        dashes() + rest,
    ));
}

} // verus!
