//! Requests as clients write them, and what the parser makes of them.

use crate::chunk::{as_chunks, crlf, crlf_crlf, law_chunked_body_arrives, pieced};
use crate::http::{
    head, head_text, header_line, header_lines, is_method_char, is_name_char,
    law_parse_consumes_a_prefix, law_parse_ignores_what_follows, names_chunked, parse, request_line,
    target_parts, Framing, HeadView, ParseView, RequestView,
};
use crate::laws::texts::law_white_space;
use crate::number::number;
use crate::text::{
    find, first, is_space, lemma_find_from, lemma_find_is, lemma_first_from, lemma_first_is,
    lemma_lower_twice, lemma_one_word, lemma_words_append, lower, lower_char, occurs_at,
    same_ignoring_case, split, split_by, split_once, trim, trim_end, trim_start, upper, upper_char,
    words, CharSet,
};
use vstd::prelude::*;
use vstd::utf8::{
    char_is_scalar, char_u32_cast, encode_scalar, encode_utf8, encode_utf8_decode_utf8,
    encode_utf8_valid_utf8, has_width_1_encoding, has_width_2_encoding, has_width_3_encoding,
    has_width_4_encoding, last_continuation_byte, leading_byte_width_1, leading_byte_width_2,
    leading_byte_width_3, leading_byte_width_4, second_last_continuation_byte,
    third_last_continuation_byte,
};

verus! {

/// A character that is not white space.
pub open spec fn is_visible(c: char) -> bool {
    !(c == ' ' || c == '\t' || c == '\n' || c == '\u{b}' || c == '\u{c}' || c == '\r' || c
        == '\u{85}' || c == '\u{a0}' || c == '\u{1680}' || '\u{2000}' <= c <= '\u{200a}' || c
        == '\u{2028}' || c == '\u{2029}' || c == '\u{202f}' || c == '\u{205f}' || c
        == '\u{3000}')
}

proof fn lemma_visible(c: char)
    requires
        is_visible(c),
    ensures
        !is_space(c),
{
    law_white_space(c);
}

/// A text without white space.
pub open spec fn is_token(s: Seq<char>) -> bool {
    s.len() > 0 && forall|i: int| 0 <= i < s.len() ==> is_visible(#[trigger] s[i])
}

/// A text of letters and dashes, as methods are.
pub open spec fn is_method(s: Seq<char>) -> bool {
    s.len() > 0 && forall|i: int|
        0 <= i < s.len() ==> ('A' <= #[trigger] s[i] <= 'Z' || 'a' <= s[i] <= 'z' || s[i] == '-')
}

/// A text of letters, digits, dashes and underscores, as header names are.
pub open spec fn is_field_name(s: Seq<char>) -> bool {
    s.len() > 0 && forall|i: int|
        0 <= i < s.len() ==> ('A' <= #[trigger] s[i] <= 'Z' || 'a' <= s[i] <= 'z' || '0' <= s[i]
            <= '9' || s[i] == '-' || s[i] == '_')
}

/// A text on one line, without white space around it, as header values are.
pub open spec fn is_field_value(s: Seq<char>) -> bool {
    no_return(s) && (s.len() > 0 ==> is_visible(s[0]) && is_visible(s.last()))
}

/// A text without carriage returns.
pub open spec fn no_return(s: Seq<char>) -> bool {
    forall|i: int| 0 <= i < s.len() ==> (#[trigger] s[i]) != '\r'
}

/// A header field as it is sent: a name and a value.
pub struct Field {
    pub name: Seq<char>,
    pub value: Seq<char>,
}

impl Field {
    /// The name is one, and the value fits on a line and has no white space around it.
    pub open spec fn is_valid(self) -> bool {
        is_field_name(self.name) && is_field_value(self.value)
    }

    pub open spec fn line(self) -> Seq<char> {
        self.name + ": "@ + self.value
    }
}

/// The lines of header fields.
pub open spec fn field_lines(fields: Seq<Field>) -> Seq<Seq<char>> {
    fields.map_values(|f: Field| f.line())
}

/// The headers once more fields were added: names in lower case, a later value in place of an
/// earlier one.
pub open spec fn with_fields(headers: Map<Seq<char>, Seq<char>>, fields: Seq<Field>) -> Map<
    Seq<char>,
    Seq<char>,
>
    decreases fields.len(),
{
    if fields.len() == 0 {
        headers
    } else {
        with_fields(headers.insert(lower(fields[0].name), fields[0].value), fields.skip(1))
    }
}

/// No Content-Length differs from one that stands before it.
pub open spec fn lengths_agree(headers: Map<Seq<char>, Seq<char>>, fields: Seq<Field>) -> bool
    decreases fields.len(),
{
    fields.len() == 0 || {
        let name = lower(fields[0].name);
        let value = fields[0].value;
        &&& name == "content-length"@ && headers.dom().contains(name) ==> headers[name] == value
        &&& lengths_agree(headers.insert(name, value), fields.skip(1))
    }
}

/// One of the items between commas is the name of the chunked coding, in any case.
pub open spec fn lists_chunked(value: Seq<char>) -> bool {
    exists|k: int|
        0 <= k < split(value, CharSet::Only(',')).len() && same_ignoring_case(
            trim(#[trigger] split(value, CharSet::Only(','))[k]),
            "chunked"@,
        )
}

/// The body of a request, in the form in which it is sent.
pub enum SentBody {
    /// There is none.
    Nothing,
    /// The body, after a Content-Length.
    Sized(Seq<u8>),
    /// The body, cut into pieces that are sent as chunks.
    Chunked(Seq<Seq<u8>>),
}

impl SentBody {
    /// The bytes that are sent.
    pub open spec fn bytes(self) -> Seq<u8> {
        match self {
            SentBody::Nothing => Seq::empty(),
            SentBody::Sized(body) => body,
            SentBody::Chunked(pieces) => as_chunks(pieces),
        }
    }

    /// The body that is meant.
    pub open spec fn body(self) -> Seq<u8> {
        match self {
            SentBody::Nothing => Seq::empty(),
            SentBody::Sized(body) => body,
            SentBody::Chunked(pieces) => pieced(pieces),
        }
    }

    /// The headers say how the body is sent.
    pub open spec fn is_announced(self, headers: Map<Seq<char>, Seq<char>>) -> bool {
        let coded = headers.dom().contains("transfer-encoding"@);
        let sized = headers.dom().contains("content-length"@);
        match self {
            SentBody::Nothing => !coded && !sized,
            SentBody::Sized(body) => !coded && sized && number(
                headers["content-length"@],
                10,
                usize::MAX as int,
            ) == Some(body.len() as int),
            SentBody::Chunked(pieces) => coded && !sized && lists_chunked(
                headers["transfer-encoding"@],
            ) && forall|k: int| 0 <= k < pieces.len() ==> (#[trigger] pieces[k]).len() > 0,
        }
    }
}

/// A request as a client writes it.
pub struct Written {
    pub method: Seq<char>,
    pub target: Seq<char>,
    pub version: Seq<char>,
    pub fields: Seq<Field>,
    pub body: SentBody,
}

impl Written {
    pub open spec fn headers(self) -> Map<Seq<char>, Seq<char>> {
        with_fields(Map::empty(), self.fields)
    }

    /// The request is one that the protocol allows: a method, a path, a known version, proper
    /// fields with a host where the version asks for it, and a body that they announce.
    pub open spec fn is_valid(self) -> bool {
        &&& is_method(self.method)
        &&& is_token(self.target)
        &&& self.target[0] == '/'
        &&& self.version == "HTTP/1.1"@ || self.version == "HTTP/1.0"@
        &&& self.version == "HTTP/1.1"@ ==> self.headers().dom().contains("host"@)
        &&& forall|k: int| 0 <= k < self.fields.len() ==> (#[trigger] self.fields[k]).is_valid()
        &&& lengths_agree(Map::empty(), self.fields)
        &&& self.body.is_announced(self.headers())
    }

    /// The first line.
    pub open spec fn first_line(self) -> Seq<char> {
        self.method + (" "@ + self.target) + (" "@ + self.version)
    }

    /// The head, without the empty line that ends it.
    pub open spec fn head(self) -> Seq<char> {
        lined(self.first_line(), field_lines(self.fields))
    }

    /// The bytes that are sent.
    pub open spec fn bytes(self) -> Seq<u8> {
        encode_utf8(self.head()) + crlf_crlf() + self.body.bytes()
    }

    /// The request without its body.
    pub open spec fn meant_head(self) -> RequestView {
        RequestView {
            method: upper(self.method),
            target: self.target,
            path: target_parts(self.target).0,
            query: target_parts(self.target).1,
            version: self.version,
            headers: self.headers(),
            body: Seq::empty(),
        }
    }

    /// The request that is meant.
    pub open spec fn meant(self) -> RequestView {
        RequestView { body: self.body.body(), ..self.meant_head() }
    }
}

/// A line and the lines after it, with line ends between them.
pub open spec fn lined(first: Seq<char>, lines: Seq<Seq<char>>) -> Seq<char>
    decreases lines.len(),
{
    if lines.len() == 0 {
        first
    } else {
        first + "\r\n"@ + lined(lines[0], lines.skip(1))
    }
}

// Lines

proof fn lemma_first_cut(line: Seq<char>, rest: Seq<char>)
    requires
        no_return(line),
    ensures
        split_by(line + "\r\n"@ + rest, "\r\n"@) == seq![line] + split_by(rest, "\r\n"@),
{
    reveal_strlit("\r\n");
    let sep = "\r\n"@;
    let s = line + sep + rest;
    let n = line.len() as int;
    assert(s.subrange(n, n + 2) =~= sep);
    assert forall|j: int| 0 <= j < n implies !occurs_at(s, sep, j) by {
        if occurs_at(s, sep, j) {
            assert(s.subrange(j, j + 2)[0] == s[j]);
            assert(s[j] == line[j]);
            assert(sep[0] == '\r');
        }
    }
    lemma_find_is(s, sep, n);
    assert(s.take(n) =~= line);
    assert(s.skip(n + 2) =~= rest);
}

proof fn lemma_last_cut(line: Seq<char>)
    requires
        no_return(line),
    ensures
        split_by(line, "\r\n"@) == seq![line],
{
    reveal_strlit("\r\n");
    let sep = "\r\n"@;
    lemma_find_from(line, sep, 0);
    if let Some(k) = find(line, sep) {
        assert(occurs_at(line, sep, k));
        assert(line.subrange(k, k + 2)[0] == line[k]);
        assert(sep[0] == '\r');
    }
}

proof fn lemma_lined_split(first: Seq<char>, lines: Seq<Seq<char>>)
    requires
        no_return(first),
        forall|k: int| 0 <= k < lines.len() ==> no_return(#[trigger] lines[k]),
    ensures
        split_by(lined(first, lines), "\r\n"@) == seq![first] + lines,
    decreases lines.len(),
{
    if lines.len() == 0 {
        lemma_last_cut(first);
        assert(seq![first] + lines =~= seq![first]);
    } else {
        let later = lines.skip(1);
        assert(no_return(lines[0]));
        assert forall|k: int| 0 <= k < later.len() implies no_return(#[trigger] later[k]) by {
            assert(later[k] == lines[k + 1]);
        }
        lemma_lined_split(lines[0], later);
        lemma_first_cut(first, lined(lines[0], later));
        assert(seq![lines[0]] + later =~= lines);
    }
}

// Bytes

proof fn lemma_scalar_bytes(v: u32)
    requires
        has_width_1_encoding(v) || has_width_2_encoding(v) || has_width_3_encoding(v)
            || has_width_4_encoding(v),
    ensures
        encode_scalar(v).len() > 0,
        v != 13 ==> forall|i: int|
            0 <= i < encode_scalar(v).len() ==> (#[trigger] encode_scalar(v)[i]) != 13,
{
    if has_width_1_encoding(v) {
        assert(leading_byte_width_1(v) == 13 ==> v == 13) by (bit_vector)
            requires
                0 <= v <= 0x7f,
        ;
    } else {
        assert(leading_byte_width_2(v) >= 0x80) by (bit_vector);
        assert(leading_byte_width_3(v) >= 0x80) by (bit_vector);
        assert(leading_byte_width_4(v) >= 0x80) by (bit_vector);
        assert(last_continuation_byte(v) >= 0x80) by (bit_vector);
        assert(second_last_continuation_byte(v) >= 0x80) by (bit_vector);
        assert(third_last_continuation_byte(v) >= 0x80) by (bit_vector);
    }
}

/// The bytes hold no carriage return.
pub open spec fn no_return_byte(b: Seq<u8>) -> bool {
    forall|i: int| 0 <= i < b.len() ==> (#[trigger] b[i]) != 13
}

/// The bytes of a text without carriage returns hold none either.
pub proof fn lemma_line_bytes(line: Seq<char>)
    requires
        no_return(line),
    ensures
        no_return_byte(encode_utf8(line)),
        line.len() > 0 ==> encode_utf8(line).len() > 0,
    decreases line.len(),
{
    if line.len() > 0 {
        let rest = line.drop_first();
        assert forall|i: int| 0 <= i < rest.len() implies (#[trigger] rest[i]) != '\r' by {
            assert(rest[i] == line[i + 1]);
        }
        lemma_line_bytes(rest);
        let v = line[0] as u32;
        char_is_scalar(line[0]);
        assert(line[0] != '\r');
        char_u32_cast(line[0], v);
        assert(v != 13);
        lemma_scalar_bytes(v);
        let front = encode_scalar(v);
        let all = encode_utf8(line);
        assert forall|i: int| 0 <= i < all.len() implies (#[trigger] all[i]) != 13 by {
            if i < front.len() {
                assert(all[i] == front[i]);
            } else {
                assert(all[i] == encode_utf8(rest)[i - front.len()]);
            }
        }
    }
}

proof fn lemma_encode_append(a: Seq<char>, b: Seq<char>)
    ensures
        encode_utf8(a + b) == encode_utf8(a) + encode_utf8(b),
    decreases a.len(),
{
    if a.len() == 0 {
        assert(a + b =~= b);
        assert(encode_utf8(a) + encode_utf8(b) =~= encode_utf8(b));
    } else {
        assert((a + b).drop_first() =~= a.drop_first() + b);
        lemma_encode_append(a.drop_first(), b);
        assert(encode_utf8(a + b) =~= encode_utf8(a) + encode_utf8(b));
    }
}

proof fn lemma_line_end_bytes()
    ensures
        encode_utf8("\r\n"@) == crlf(),
{
    reveal_strlit("\r\n");
    vstd::utf8::is_ascii_chars_encode_utf8("\r\n"@);
    assert(encode_utf8("\r\n"@)[0] == '\r' as u8);
    assert(encode_utf8("\r\n"@)[1] == '\n' as u8);
    assert(encode_utf8("\r\n"@) =~= crlf());
}

proof fn lemma_head_end(first: Seq<char>, lines: Seq<Seq<char>>, rest: Seq<u8>)
    requires
        no_return(first),
        forall|k: int|
            0 <= k < lines.len() ==> no_return(#[trigger] lines[k]) && lines[k].len() > 0,
    ensures
        forall|j: int|
            0 <= j < encode_utf8(lined(first, lines)).len() ==> !#[trigger] occurs_at(
                encode_utf8(lined(first, lines)) + crlf_crlf() + rest,
                crlf_crlf(),
                j,
            ),
    decreases lines.len(),
{
    lemma_line_bytes(first);
    let front = encode_utf8(first);
    let all = encode_utf8(lined(first, lines));
    let buffer = all + crlf_crlf() + rest;
    let n = front.len() as int;
    if lines.len() > 0 {
        let later = lines.skip(1);
        assert(no_return(lines[0]) && lines[0].len() > 0);
        assert forall|k: int| 0 <= k < later.len() implies no_return(#[trigger] later[k])
            && later[k].len() > 0 by {
            assert(later[k] == lines[k + 1]);
        }
        lemma_head_end(lines[0], later, rest);
        lemma_line_bytes(lines[0]);
        let tail = lined(lines[0], later);
        let back = encode_utf8(tail);
        lemma_encode_append(first + "\r\n"@, tail);
        lemma_encode_append(first, "\r\n"@);
        lemma_line_end_bytes();
        assert(all =~= front + crlf() + back);
        lemma_lined_starts(lines[0], later);
        assert(buffer.skip(n + 2) =~= back + crlf_crlf() + rest);
        assert forall|j: int| 0 <= j < all.len() implies !#[trigger] occurs_at(
            buffer,
            crlf_crlf(),
            j,
        ) by {
            if occurs_at(buffer, crlf_crlf(), j) {
                let part = buffer.subrange(j, j + 4);
                assert(part[0] == buffer[j] && part[2] == buffer[j + 2]);
                assert(crlf_crlf()[0] == 13 && crlf_crlf()[2] == 13);
                if j < n {
                    assert(buffer[j] == front[j]);
                } else if j == n {
                    assert(buffer[j + 2] == back[0]);
                    assert(back[0] == encode_utf8(lines[0])[0]);
                } else if j == n + 1 {
                    assert(buffer[j] == 10);
                } else {
                    let k = j - n - 2;
                    assert(buffer.skip(n + 2).subrange(k, k + 4) =~= part);
                    assert(occurs_at(back + crlf_crlf() + rest, crlf_crlf(), k));
                }
            }
        }
    } else {
        assert forall|j: int| 0 <= j < all.len() implies !#[trigger] occurs_at(
            buffer,
            crlf_crlf(),
            j,
        ) by {
            if occurs_at(buffer, crlf_crlf(), j) {
                assert(buffer.subrange(j, j + 4)[0] == buffer[j]);
                assert(crlf_crlf()[0] == 13);
                assert(buffer[j] == front[j]);
            }
        }
    }
}

proof fn lemma_lined_starts(first: Seq<char>, lines: Seq<Seq<char>>)
    requires
        encode_utf8(first).len() > 0,
    ensures
        encode_utf8(lined(first, lines)).len() > 0,
        encode_utf8(lined(first, lines))[0] == encode_utf8(first)[0],
{
    if lines.len() > 0 {
        let rest = "\r\n"@ + lined(lines[0], lines.skip(1));
        assert(lined(first, lines) =~= first + rest);
        lemma_encode_append(first, rest);
    }
}

// Fields

proof fn lemma_trim_padded(s: Seq<char>)
    requires
        trim(s) == s,
    ensures
        trim(seq![' '] + s) == s,
{
    let padded = seq![' '] + s;
    assert(padded[0] == ' ');
    assert(padded.skip(1) =~= s);
    assert(trim_start(padded, CharSet::Space) == trim_start(s, CharSet::Space));
}

proof fn lemma_trim_token(s: Seq<char>)
    requires
        forall|i: int| 0 <= i < s.len() ==> !is_space(#[trigger] s[i]),
    ensures
        trim(s) == s,
{
    if s.len() > 0 {
        assert(!is_space(s[0]));
        assert(!is_space(s[s.len() - 1]));
    }
    assert(trim_start(s, CharSet::Space) == s);
    assert(trim_end(s, CharSet::Space) == s);
}

proof fn lemma_value_is_trimmed(s: Seq<char>)
    requires
        is_field_value(s),
    ensures
        trim(s) == s,
{
    if s.len() > 0 {
        lemma_visible(s[0]);
        lemma_visible(s[s.len() - 1]);
    }
    assert(trim_start(s, CharSet::Space) == s);
    assert(trim_end(s, CharSet::Space) == s);
}

proof fn lemma_field_line(f: Field, headers: Map<Seq<char>, Seq<char>>)
    requires
        f.is_valid(),
        lower(f.name) == "content-length"@ && headers.dom().contains(lower(f.name))
            ==> headers[lower(f.name)] == f.value,
    ensures
        header_line(f.line(), headers) == Ok::<Map<Seq<char>, Seq<char>>, Seq<char>>(
            headers.insert(lower(f.name), f.value),
        ),
        no_return(f.line()),
        f.line().len() > 0,
{
    reveal_strlit(": ");
    let line = f.line();
    let n = f.name.len() as int;
    lemma_value_is_trimmed(f.value);
    assert forall|i: int| 0 <= i < n implies is_name_char(#[trigger] f.name[i]) by {}
    let colon = CharSet::Only(':');
    let right = seq![' '] + f.value;
    assert forall|j: int| 0 <= j < n implies !colon.has(#[trigger] line[j]) && line[j] != '\r'
        && !is_space(line[j]) by {
        assert(line[j] == f.name[j]);
        assert(is_name_char(f.name[j]));
    }
    assert(line[n] == ':');
    lemma_first_is(line, colon, 0, n);
    assert(line.take(n) =~= f.name);
    assert(line.skip(n + 1) =~= right);
    assert(split_once(line, ':') == Some((f.name, right)));
    assert forall|j: int| 0 <= j < n implies !is_space(#[trigger] f.name[j]) by {
        assert(is_name_char(f.name[j]));
    }
    lemma_trim_token(f.name);
    lemma_trim_padded(f.value);
    let name = lower(f.name);
    assert forall|i: int| 0 <= i < name.len() implies is_name_char(#[trigger] name[i]) by {
        assert(is_name_char(f.name[i]));
        assert(name[i] == lower_char(f.name[i]));
    }
    assert forall|j: int| 0 <= j < line.len() implies (#[trigger] line[j]) != '\r' by {
        if j >= n + 2 {
            assert(line[j] == f.value[j - n - 2]);
        }
    }
}

proof fn lemma_fields(fields: Seq<Field>, headers: Map<Seq<char>, Seq<char>>)
    requires
        forall|k: int| 0 <= k < fields.len() ==> (#[trigger] fields[k]).is_valid(),
        lengths_agree(headers, fields),
    ensures
        header_lines(field_lines(fields), headers) == Ok::<Map<Seq<char>, Seq<char>>, Seq<char>>(
            with_fields(headers, fields),
        ),
        forall|k: int|
            0 <= k < fields.len() ==> no_return(#[trigger] field_lines(fields)[k]) && field_lines(
                fields,
            )[k].len() > 0,
    decreases fields.len(),
{
    let lines = field_lines(fields);
    if fields.len() > 0 {
        let later = fields.skip(1);
        assert(fields[0].is_valid());
        assert forall|k: int| 0 <= k < later.len() implies (#[trigger] later[k]).is_valid() by {
            assert(later[k] == fields[k + 1]);
        }
        lemma_field_line(fields[0], headers);
        lemma_fields(later, headers.insert(lower(fields[0].name), fields[0].value));
        assert(lines.skip(1) =~= field_lines(later));
        assert(lines[0] == fields[0].line());
        assert forall|k: int| 0 <= k < fields.len() implies no_return(#[trigger] lines[k])
            && lines[k].len() > 0 by {
            if k > 0 {
                assert(lines[k] == field_lines(later)[k - 1]);
            }
        }
    }
}

// The head

proof fn lemma_target_path(target: Seq<char>)
    requires
        target.len() > 0,
        target[0] == '/',
    ensures
        target_parts(target).0.len() > 0,
        target_parts(target).0[0] == '/',
{
    lemma_first_from(target, CharSet::Only('?'), 0);
    assert(!CharSet::Only('?').has(target[0]));
}

proof fn lemma_first_line(w: Written)
    requires
        w.is_valid(),
    ensures
        request_line(w.first_line()) == Ok::<RequestView, Seq<char>>(
            RequestView { headers: Map::empty(), ..w.meant_head() },
        ),
        no_return(w.first_line()),
{
    reveal_strlit(" ");
    reveal_strlit("HTTP/1.1");
    reveal_strlit("HTTP/1.0");
    let set = CharSet::Space;
    let second = seq![' '] + w.target;
    let third = seq![' '] + w.version;
    assert(" "@ + w.target =~= second);
    assert(" "@ + w.version =~= third);
    assert forall|j: int| 0 <= j < w.method.len() implies !set.has(#[trigger] w.method[j]) by {}
    assert forall|j: int| 0 <= j < w.target.len() implies !set.has(#[trigger] w.target[j]) by {
        lemma_visible(w.target[j]);
    }
    let method = upper(w.method);
    assert forall|i: int| 0 <= i < method.len() implies is_method_char(#[trigger] method[i]) by {
        assert(method[i] == upper_char(w.method[i]));
    }
    assert forall|j: int| 0 <= j < w.version.len() implies !set.has(#[trigger] w.version[j]) by {}
    lemma_one_word(w.method, set);
    lemma_one_word(w.target, set);
    lemma_one_word(w.version, set);
    assert(set.has(' '));
    assert(second[0] == ' ');
    assert(third[0] == ' ');
    lemma_words_append(w.method, second, set);
    lemma_words_append(w.method + second, third, set);
    let line = w.first_line();
    assert(words(line, set) =~= seq![w.method, w.target, w.version]);
    lemma_target_path(w.target);
    assert(is_space('\r'));
    assert forall|j: int| 0 <= j < line.len() implies (#[trigger] line[j]) != '\r' by {
        let a = w.method.len() as int;
        let b = a + 1 + w.target.len();
        if j < a {
            assert(line[j] == w.method[j]);
        } else if j == a {
            assert(line[j] == ' ');
        } else if j < b {
            assert(is_visible(w.target[j - a - 1]));
            assert(line[j] == w.target[j - a - 1]);
        } else if j == b {
            assert(line[j] == ' ');
        } else {
            assert(line[j] == w.version[j - b - 1]);
        }
    }
}

/// How the body is delimited.
pub open spec fn sent_framing(body: SentBody) -> Framing {
    match body {
        SentBody::Nothing => Framing::Empty,
        SentBody::Sized(b) => Framing::Length(b.len() as usize),
        SentBody::Chunked(_) => Framing::Chunked,
    }
}

proof fn lemma_head_text(w: Written, start: int, hard_limit: int)
    requires
        w.is_valid(),
        w.body.body().len() <= hard_limit,
    ensures
        head_text(w.head(), start, hard_limit) == (HeadView::Complete {
            head: w.meant_head(),
            body_start: start,
            framing: sent_framing(w.body),
        }),
{
    let lines = field_lines(w.fields);
    let first = w.first_line();
    lemma_first_line(w);
    lemma_fields(w.fields, Map::empty());
    lemma_lined_split(first, lines);
    let all = seq![first] + lines;
    assert(all[0] == first);
    assert(all.skip(1) =~= lines);
    if let SentBody::Chunked(_) = w.body {
        law_chunked_is_named(w.headers()["transfer-encoding"@]);
    }
    if let SentBody::Sized(body) = w.body {
        crate::number::lemma_number_range(
            w.headers()["content-length"@],
            10,
            usize::MAX as int,
        );
    }
}

proof fn lemma_split_lower(s: Seq<char>)
    ensures
        split(lower(s), CharSet::Only(',')).len() == split(s, CharSet::Only(',')).len(),
        forall|k: int|
            0 <= k < split(s, CharSet::Only(',')).len() ==> #[trigger] split(
                lower(s),
                CharSet::Only(','),
            )[k] == lower(split(s, CharSet::Only(','))[k]),
    decreases s.len(),
{
    let set = CharSet::Only(',');
    let i = first(s, set);
    let t = lower(s);
    lemma_first_from(s, set, 0);
    assert forall|j: int| 0 <= j < i implies !set.has(#[trigger] t[j]) by {
        assert(!set.has(s[j]));
        assert(t[j] == lower_char(s[j]));
    }
    if i < s.len() {
        assert(t[i] == lower_char(s[i]));
    }
    lemma_first_is(t, set, 0, i);
    if i < s.len() {
        let rest = s.skip(i + 1);
        lemma_split_lower(rest);
        assert(t.skip(i + 1) =~= lower(rest));
        assert(t.take(i) =~= lower(s.take(i)));
        let a = split(t, set);
        let b = split(s, set);
        assert forall|k: int| 0 <= k < b.len() implies #[trigger] a[k] == lower(b[k]) by {
            if k > 0 {
                assert(a[k] == split(lower(rest), set)[k - 1]);
                assert(b[k] == split(rest, set)[k - 1]);
            }
        }
    }
}

proof fn lemma_trim_lower(s: Seq<char>)
    ensures
        trim(lower(s)) == lower(trim(s)),
{
    lemma_trim_start_lower(s);
    lemma_trim_end_lower(trim_start(s, CharSet::Space));
}

proof fn lemma_trim_start_lower(s: Seq<char>)
    ensures
        trim_start(lower(s), CharSet::Space) == lower(trim_start(s, CharSet::Space)),
    decreases s.len(),
{
    if s.len() > 0 {
        assert(lower(s)[0] == lower_char(s[0]));
        assert(lower(s).skip(1) =~= lower(s.skip(1)));
        lemma_trim_start_lower(s.skip(1));
    }
}

proof fn lemma_trim_end_lower(s: Seq<char>)
    ensures
        trim_end(lower(s), CharSet::Space) == lower(trim_end(s, CharSet::Space)),
    decreases s.len(),
{
    if s.len() > 0 {
        assert(lower(s).last() == lower_char(s.last()));
        assert(lower(s).drop_last() =~= lower(s.drop_last()));
        lemma_trim_end_lower(s.drop_last());
    }
}

/// A Transfer-Encoding names the chunked coding where one of its items between commas is that name,
/// in any case and with white space around it.
pub proof fn law_chunked_is_named(value: Seq<char>)
    ensures
        names_chunked(value) <==> lists_chunked(value),
{
    let set = CharSet::Only(',');
    let lowered = split(lower(value), set);
    let plain = split(value, set);
    lemma_split_lower(value);
    assert forall|k: int| 0 <= k < plain.len() implies (same_ignoring_case(
        trim(#[trigger] lowered[k]),
        "chunked"@,
    ) <==> same_ignoring_case(trim(plain[k]), "chunked"@)) by {
        assert(lowered[k] == lower(plain[k]));
        lemma_trim_lower(plain[k]);
        lemma_lower_twice(trim(plain[k]));
    }
    if names_chunked(value) {
        let k = choose|k: int|
            0 <= k < lowered.len() && same_ignoring_case(trim(#[trigger] lowered[k]), "chunked"@);
        assert(same_ignoring_case(trim(plain[k]), "chunked"@));
    }
    if lists_chunked(value) {
        let k = choose|k: int|
            0 <= k < plain.len() && same_ignoring_case(trim(#[trigger] plain[k]), "chunked"@);
        assert(same_ignoring_case(trim(lowered[k]), "chunked"@));
    }
}

/// An incomplete request is waited for: of every valid request, each part of it that comes before
/// its last byte is taken as the start of one.
pub proof fn law_incomplete_request_is_waited_for(w: Written, n: int, hard_limit: int)
    requires
        w.is_valid(),
        0 <= n < w.bytes().len(),
        w.bytes().len() <= hard_limit <= usize::MAX,
    ensures
        parse(w.bytes().take(n), hard_limit) is NeedMore,
{
    let all = w.bytes();
    let none = Seq::<u8>::empty();
    law_request_is_read_as_written(w, none, hard_limit);
    assert(all + none =~= all);
    if !(parse(all.take(n), hard_limit) is NeedMore) {
        law_parse_ignores_what_follows(all.take(n), all.skip(n), hard_limit);
        assert(all.take(n) + all.skip(n) =~= all);
        law_parse_consumes_a_prefix(all.take(n), hard_limit);
    }
}

proof fn lemma_pieces_fit(pieces: Seq<Seq<u8>>)
    ensures
        pieced(pieces).len() <= as_chunks(pieces).len(),
    decreases pieces.len(),
{
    if pieces.len() > 0 {
        lemma_pieces_fit(pieces.skip(1));
    }
}

/// The head of a request is read as it was written, as soon as the empty line that ends it has
/// arrived: method, target, version and headers, and how the body is delimited.
pub proof fn law_head_is_read_as_written(w: Written, rest: Seq<u8>, hard_limit: int)
    requires
        w.is_valid(),
        w.body.body().len() <= hard_limit,
    ensures
        head(encode_utf8(w.head()) + crlf_crlf() + rest, hard_limit) == (HeadView::Complete {
            head: w.meant_head(),
            body_start: encode_utf8(w.head()).len() as int + 4,
            framing: sent_framing(w.body),
        }),
{
    let text = w.head();
    let bytes = encode_utf8(text);
    let buffer = bytes + crlf_crlf() + rest;
    let end = bytes.len() as int;
    lemma_first_line(w);
    lemma_fields(w.fields, Map::empty());
    lemma_head_end(w.first_line(), field_lines(w.fields), rest);
    assert(buffer.subrange(end, end + 4) =~= crlf_crlf());
    lemma_find_is(buffer, crlf_crlf(), end);
    assert(buffer.take(end) =~= bytes);
    encode_utf8_valid_utf8(text);
    encode_utf8_decode_utf8(text);
    lemma_head_text(w, end + 4, hard_limit);
}

/// A request is read as it was written, whatever follows it: its method, target, version, headers
/// and body arrive, the body also where it was sent in chunks, and exactly the bytes of the
/// request are taken.
pub proof fn law_request_is_read_as_written(w: Written, rest: Seq<u8>, hard_limit: int)
    requires
        w.is_valid(),
        (w.bytes() + rest).len() <= hard_limit <= usize::MAX,
    ensures
        parse(w.bytes() + rest, hard_limit) == (ParseView::Complete {
            request: w.meant(),
            consumed: w.bytes().len() as int,
        }),
{
    let bytes = encode_utf8(w.head());
    let sent = w.body.bytes();
    let buffer = w.bytes() + rest;
    let end = bytes.len() as int;
    if let SentBody::Chunked(pieces) = w.body {
        lemma_pieces_fit(pieces);
    }
    law_head_is_read_as_written(w, sent + rest, hard_limit);
    assert(bytes + crlf_crlf() + (sent + rest) =~= buffer);
    match w.body {
        SentBody::Nothing => {},
        SentBody::Sized(body) => {
            assert(buffer.subrange(end + 4, end + 4 + body.len()) =~= body);
        },
        SentBody::Chunked(pieces) => {
            assert(buffer.skip(end + 4) =~= as_chunks(pieces) + rest);
            law_chunked_body_arrives(pieces, rest, hard_limit);
        },
    }
}

} // verus!
