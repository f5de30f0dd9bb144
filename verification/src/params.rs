//! Values in cookies, queries and the Host header, and the escaping of text for JSON and URLs.

use crate::text::{
    before, before_slice, first, first_index, is_text, split, split_once, split_once_slice,
    split_slice, texts, to_chars, to_text, trim, trim_slice, CharSet,
};
use crate::number::hex_value;
use crate::util::{percent_bytes, percent_decode, percent_text, prepend, string_text};
use vstd::prelude::*;
use vstd::slice::slice_subrange;
use vstd::utf8::{
    encode_utf8, encode_utf8_decode_utf8, encode_utf8_valid_utf8, is_ascii_chars,
    is_ascii_chars_encode_utf8,
};

verus! {

/// The value of the first of the pairs `name=value` whose name is `key`.
pub open spec fn pair_value(pairs: Seq<Seq<char>>, key: Seq<char>) -> Option<Seq<char>>
    decreases pairs.len(),
{
    if pairs.len() == 0 {
        None
    } else {
        match split_once(trim(pairs[0]), '=') {
            Some((name, value)) => if name == key {
                Some(value)
            } else {
                pair_value(pairs.skip(1), key)
            },
            None => pair_value(pairs.skip(1), key),
        }
    }
}

/// The value of a cookie in a Cookie header.
pub open spec fn cookie(header: Seq<char>, key: Seq<char>) -> Option<Seq<char>> {
    pair_value(split(header, CharSet::Only(';')), key)
}

/// The value of a cookie in a Cookie header.
pub fn cookie_value(header: &str, key: &str) -> (r: Option<String>)
    ensures
        string_text(r) == cookie(header@, key@),
{
    let chars = to_chars(header);
    let pairs = split_slice(chars.as_slice(), CharSet::Only(';'));
    let ghost t = split(header@, CharSet::Only(';'));
    assert(t.skip(0) =~= t);
    let mut i: usize = 0;
    while i < pairs.len()
        invariant
            0 <= i <= pairs@.len(),
            texts(pairs@) == t,
            t == split(header@, CharSet::Only(';')),
            pair_value(t, key@) == pair_value(t.skip(i as int), key@),
        decreases pairs.len() - i,
    {
        assert(t.skip(i as int)[0] == pairs@[i as int]@);
        assert(t.skip(i as int).skip(1) =~= t.skip(i + 1));
        match split_once_slice(trim_slice(pairs[i]), '=') {
            Some((name, value)) => {
                if is_text(name, key) {
                    return Some(to_text(value));
                }
            },
            None => {},
        }
        i = i + 1;
    }
    None
}

/// The text with spaces for plus signs.
pub open spec fn plus_to_space(s: Seq<char>) -> Seq<char> {
    s.map_values(
        |c: char|
            if c == '+' {
                ' '
            } else {
                c
            },
    )
}

fn spaces_for_plus(s: &[char]) -> (r: Vec<char>)
    ensures
        r@ == plus_to_space(s@),
{
    let mut r: Vec<char> = Vec::new();
    let mut i: usize = 0;
    while i < s.len()
        invariant
            0 <= i <= s@.len(),
            r@ == plus_to_space(s@).take(i as int),
        decreases s.len() - i,
    {
        if s[i] == '+' {
            r.push(' ');
        } else {
            r.push(s[i]);
        }
        i = i + 1;
        assert(r@ =~= plus_to_space(s@).take(i as int));
    }
    assert(r@ =~= plus_to_space(s@));
    r
}

/// The name and the value of a part of a query.
pub open spec fn query_pair(pair: Seq<char>) -> (Seq<char>, Seq<char>) {
    match split_once(pair, '=') {
        Some((name, value)) => (name, value),
        None => (pair, Seq::empty()),
    }
}

/// The decoded value of the first of the pairs whose name is `key` and whose value can be decoded.
pub open spec fn decoded_value(pairs: Seq<Seq<char>>, key: Seq<char>) -> Option<Seq<char>>
    decreases pairs.len(),
{
    if pairs.len() == 0 {
        None
    } else {
        let (name, value) = query_pair(pairs[0]);
        match percent_text(plus_to_space(value)) {
            Ok(decoded) => if name == key {
                Some(decoded)
            } else {
                decoded_value(pairs.skip(1), key)
            },
            Err(_) => decoded_value(pairs.skip(1), key),
        }
    }
}

/// The value of a parameter of a query.
pub open spec fn query_parameter(query: Seq<char>, key: Seq<char>) -> Option<Seq<char>> {
    decoded_value(split(query, CharSet::Only('&')), key)
}

/// The value of a parameter of a query.
pub fn query_value(query: &str, key: &str) -> (r: Option<String>)
    ensures
        string_text(r) == query_parameter(query@, key@),
{
    let chars = to_chars(query);
    let pairs = split_slice(chars.as_slice(), CharSet::Only('&'));
    let ghost t = split(query@, CharSet::Only('&'));
    assert(t.skip(0) =~= t);
    let mut i: usize = 0;
    while i < pairs.len()
        invariant
            0 <= i <= pairs@.len(),
            texts(pairs@) == t,
            t == split(query@, CharSet::Only('&')),
            decoded_value(t, key@) == decoded_value(t.skip(i as int), key@),
        decreases pairs.len() - i,
    {
        let ghost pair = pairs@[i as int]@;
        assert(t.skip(i as int)[0] == pair);
        assert(t.skip(i as int).skip(1) =~= t.skip(i + 1));
        let end: usize = pairs[i].len();
        let (name, value): (&[char], &[char]) = match split_once_slice(pairs[i], '=') {
            Some((name, value)) => (name, value),
            None => (pairs[i], slice_subrange(pairs[i], end, end)),
        };
        assert((name@, value@) =~= query_pair(pair));
        if is_text(name, key) {
            let replaced = to_text(spaces_for_plus(value).as_slice());
            match percent_decode(replaced.as_str()) {
                Ok(decoded) => {
                    return Some(decoded);
                },
                Err(_) => {},
            }
        }
        i = i + 1;
    }
    None
}

/// The host in a Host header, without the port.
pub open spec fn host_name(header: Seq<char>) -> Seq<char> {
    let t = trim(header);
    let end = first(t, CharSet::Only(']'));
    if t.len() > 0 && t[0] == '[' && end < t.len() {
        t.subrange(1, end)
    } else {
        before(t, ':')
    }
}

/// The host in a Host header, without the port.
pub fn host_without_port<'a>(header: &'a [char]) -> (r: &'a [char])
    ensures
        r@ == host_name(header@),
{
    let trimmed = trim_slice(header);
    if trimmed.len() > 0 && trimmed[0] == '[' {
        let end = first_index(trimmed, CharSet::Only(']'));
        if end < trimmed.len() {
            if end == 0 {
                proof {
                    crate::text::lemma_first_from(trimmed@, CharSet::Only(']'), 0);
                }
            }
            return slice_subrange(trimmed, 1, end);
        }
    }
    before_slice(trimmed, ':')
}

/// How a character stands in a JSON string.
pub open spec fn json_char(c: char) -> Seq<char> {
    if c == '\\' {
        "\\\\"@
    } else if c == '"' {
        "\\\""@
    } else if c == '\n' {
        "\\n"@
    } else if c == '\r' {
        "\\r"@
    } else if c == '\t' {
        "\\t"@
    } else {
        seq![c]
    }
}

/// How a text stands in a JSON string.
pub open spec fn json_text(s: Seq<char>) -> Seq<char>
    decreases s.len(),
{
    if s.len() == 0 {
        Seq::empty()
    } else {
        json_text(s.drop_last()) + json_char(s.last())
    }
}

/// Escapes a text for a JSON string.
pub fn json_escape(input: &str) -> (r: String)
    ensures
        r@ == json_text(input@),
{
    let s = to_chars(input);
    let mut out = String::new();
    let mut i: usize = 0;
    assert(s@.take(0) =~= Seq::<char>::empty());
    while i < s.len()
        invariant
            0 <= i <= s@.len(),
            out@ == json_text(s@.take(i as int)),
        decreases s.len() - i,
    {
        assert(s@.take(i + 1).drop_last() =~= s@.take(i as int));
        let c = s[i];
        if c == '\\' {
            out.append("\\\\");
        } else if c == '"' {
            out.append("\\\"");
        } else if c == '\n' {
            out.append("\\n");
        } else if c == '\r' {
            out.append("\\r");
        } else if c == '\t' {
            out.append("\\t");
        } else {
            out.push(c);
        }
        i = i + 1;
        assert(out@ =~= json_text(s@.take(i as int)));
    }
    assert(s@.take(s@.len() as int) =~= s@);
    out
}

/// The byte stands for itself in a URL path.
pub open spec fn is_plain_byte(b: u8) -> bool {
    48 <= b <= 57 || 65 <= b <= 90 || 97 <= b <= 122 || b == 45 || b == 95 || b == 46 || b == 126
}

/// The hexadecimal digit of a value, in upper case.
pub open spec fn upper_hex(v: int) -> char {
    if v < 10 {
        (48 + v) as u8 as char
    } else {
        (55 + v) as u8 as char
    }
}

/// How a byte stands in a URL path.
pub open spec fn url_byte(b: u8) -> Seq<char> {
    if is_plain_byte(b) {
        seq![b as char]
    } else {
        seq!['%', upper_hex(b as int / 16), upper_hex(b as int % 16)]
    }
}

/// How bytes stand in a URL path.
pub open spec fn url_bytes(b: Seq<u8>) -> Seq<char>
    decreases b.len(),
{
    if b.len() == 0 {
        Seq::empty()
    } else {
        url_bytes(b.drop_last()) + url_byte(b.last())
    }
}

/// How a text stands in a URL path.
pub open spec fn url_text(s: Seq<char>) -> Seq<char> {
    url_bytes(encode_utf8(s))
}

fn upper_hex_digit(v: u8) -> (c: char)
    requires
        v < 16,
    ensures
        c == upper_hex(v as int),
{
    if v < 10 {
        (48 + v) as char
    } else {
        (55 + v) as char
    }
}

/// Escapes a text for a URL path.
pub fn url_path_escape(input: &str) -> (r: String)
    ensures
        r@ == url_text(input@),
{
    let bytes = input.as_bytes();
    let mut out = String::new();
    let mut i: usize = 0;
    assert(bytes@.take(0) =~= Seq::<u8>::empty());
    while i < bytes.len()
        invariant
            0 <= i <= bytes@.len(),
            out@ == url_bytes(bytes@.take(i as int)),
        decreases bytes.len() - i,
    {
        assert(bytes@.take(i + 1).drop_last() =~= bytes@.take(i as int));
        let b: u8 = bytes[i];
        if (48 <= b && b <= 57) || (65 <= b && b <= 90) || (97 <= b && b <= 122) || b == 45 || b
            == 95 || b == 46 || b == 126 {
            out.push(b as char);
        } else {
            out.push('%');
            out.push(upper_hex_digit(b / 16));
            out.push(upper_hex_digit(b % 16));
        }
        i = i + 1;
        assert(out@ =~= url_bytes(bytes@.take(i as int)));
    }
    assert(bytes@.take(bytes@.len() as int) =~= bytes@);
    out
}

// Escaped names lead back

/// The bytes of a text of ASCII characters.
spec fn ascii(s: Seq<char>) -> Seq<u8> {
    s.map_values(|c: char| c as u8)
}

proof fn lemma_hex_digits()
    ensures
        forall|v: int|
            0 <= v < 16 ==> hex_value(#[trigger] upper_hex(v)) == Some(v) && (upper_hex(v) as u8) as char
                == upper_hex(v) && (upper_hex(v) as u32) < 128 && upper_hex(v) != '%',
{
    assert forall|v: int| 0 <= v < 16 implies hex_value(#[trigger] upper_hex(v)) == Some(v) && (
    upper_hex(v) as u8) as char == upper_hex(v) && (upper_hex(v) as u32) < 128 && upper_hex(v)
        != '%' by {}
}

proof fn lemma_url_byte(b: u8, rest: Seq<u8>)
    ensures
        is_ascii_chars(url_byte(b)),
        percent_bytes(ascii(url_byte(b)) + rest) == prepend(seq![b], percent_bytes(rest)),
{
    lemma_hex_digits();
    let e = url_byte(b);
    let all = ascii(e) + rest;
    if is_plain_byte(b) {
        assert(all[0] == b);
        assert(all.skip(1) =~= rest);
    } else {
        let high = b as int / 16;
        let low = b as int % 16;
        assert(0 <= high < 16 && 0 <= low < 16);
        assert(all[0] == 37);
        assert(all[1] == upper_hex(high) as u8);
        assert(all[2] == upper_hex(low) as u8);
        assert(hex_value(all[1] as char) == Some(high));
        assert(hex_value(all[2] as char) == Some(low));
        assert(all.skip(3) =~= rest);
    }
}

proof fn lemma_url_bytes(b: Seq<u8>, rest: Seq<u8>, tail: Seq<u8>)
    requires
        percent_bytes(rest) == Ok::<Seq<u8>, Seq<char>>(tail),
    ensures
        is_ascii_chars(url_bytes(b)),
        percent_bytes(ascii(url_bytes(b)) + rest) == Ok::<Seq<u8>, Seq<char>>(b + tail),
    decreases b.len(),
{
    if b.len() == 0 {
        assert(ascii(url_bytes(b)) + rest =~= rest);
        assert(b + tail =~= tail);
    } else {
        let init = b.drop_last();
        let last = b.last();
        lemma_url_byte(last, rest);
        let longer = ascii(url_byte(last)) + rest;
        lemma_url_bytes(init, longer, seq![last] + tail);
        assert(ascii(url_bytes(b)) + rest =~= ascii(url_bytes(init)) + longer);
        assert(init + (seq![last] + tail) =~= b + tail);
    }
}

/// The link of a directory entry leads back to its name: resolving the escapes of an escaped name
/// gives the name.
pub proof fn law_escaped_name_leads_back(name: Seq<char>)
    ensures
        percent_text(url_text(name)) == Ok::<Seq<char>, Seq<char>>(name),
{
    let bytes = encode_utf8(name);
    let none = Seq::<u8>::empty();
    assert(percent_bytes(none) == Ok::<Seq<u8>, Seq<char>>(none));
    lemma_url_bytes(bytes, none, none);
    is_ascii_chars_encode_utf8(url_text(name));
    assert(encode_utf8(url_text(name)) =~= ascii(url_text(name)) + none);
    assert(bytes + none =~= bytes);
    encode_utf8_valid_utf8(name);
    encode_utf8_decode_utf8(name);
}

} // verus!
