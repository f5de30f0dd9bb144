//! Cookies, queries, hosts and forms, and how texts are escaped.

use crate::laws::texts::{law_cut_at_a_character, law_joined_parts, law_white_space};
use crate::multipart::{after_prefix, boundary, file_name};
use crate::params::{
    cookie, decoded_value, host_name, json_text, law_escaped_name_leads_back, pair_value,
    plus_to_space, query_parameter, url_byte, url_bytes, url_text,
};
use crate::text::{
    first, join, lemma_first_from, lemma_first_is, lower, split, split_once, starts_with, trim,
    trim_both, trim_end, trim_start, CharSet,
};
use crate::util::percent_text;
use vstd::prelude::*;
use vstd::utf8::encode_utf8;

verus! {

/// Pieces with a character between them are cut apart at it again.
pub proof fn law_joined_pieces_are_cut_apart(pieces: Seq<Seq<char>>, c: char)
    requires
        pieces.len() > 0,
        forall|k: int| 0 <= k < pieces.len() ==> !(#[trigger] pieces[k]).contains(c),
    ensures
        split(join(pieces, seq![c]), CharSet::Only(c)) == pieces,
    decreases pieces.len(),
{
    let rest = pieces.skip(1);
    let front = seq![pieces[0]];
    law_joined_parts(front, rest, pieces[0], seq![c]);
    law_cut_at_a_character(pieces[0], join(rest, seq![c]), c);
    assert(front + rest =~= pieces);
    if rest.len() > 0 {
        assert forall|k: int| 0 <= k < rest.len() implies !(#[trigger] rest[k]).contains(c) by {
            assert(rest[k] == pieces[k + 1]);
        }
        law_joined_pieces_are_cut_apart(rest, c);
        assert(join(pieces, seq![c]) =~= pieces[0] + seq![c] + join(rest, seq![c]));
    } else {
        assert(pieces =~= front);
    }
}

// Cookies

/// The text is a pair of the given name.
pub open spec fn names(pair: Seq<char>, key: Seq<char>) -> bool {
    exists|rest: Seq<char>| pair == #[trigger] (key + seq!['='] + rest)
}

proof fn lemma_names(pair: Seq<char>, key: Seq<char>)
    requires
        !key.contains('='),
    ensures
        names(pair, key) <==> (split_once(pair, '=') matches Some((name, _)) && name == key),
{
    if names(pair, key) {
        let rest = choose|rest: Seq<char>| pair == #[trigger] (key + seq!['='] + rest);
        law_cut_at_a_character(key, rest, '=');
    }
    if let Some((name, value)) = split_once(pair, '=') {
        lemma_first_from(pair, CharSet::Only('='), 0);
        let i = first(pair, CharSet::Only('='));
        assert(pair =~= name + seq!['='] + value);
    }
}

proof fn lemma_pair_value(pairs: Seq<Seq<char>>, key: Seq<char>, value: Seq<char>, i: int)
    requires
        !key.contains('='),
        0 <= i < pairs.len(),
        trim(pairs[i]) == key + seq!['='] + value,
        forall|j: int| 0 <= j < i ==> !names(trim(#[trigger] pairs[j]), key),
    ensures
        pair_value(pairs, key) == Some(value),
    decreases pairs.len(),
{
    lemma_names(trim(pairs[0]), key);
    if i == 0 {
        law_cut_at_a_character(key, value, '=');
    } else {
        let rest = pairs.skip(1);
        assert forall|j: int| 0 <= j < i - 1 implies !names(trim(#[trigger] rest[j]), key) by {
            assert(rest[j] == pairs[j + 1]);
        }
        assert(!names(trim(pairs[0]), key));
        lemma_pair_value(rest, key, value, i - 1);
    }
}

/// The value of a cookie is that of the first pair with its name, among pairs between semicolons
/// with space around them.
pub proof fn law_cookie_among_others(
    pairs: Seq<Seq<char>>,
    key: Seq<char>,
    value: Seq<char>,
    i: int,
)
    requires
        !key.contains('='),
        forall|k: int| 0 <= k < pairs.len() ==> !(#[trigger] pairs[k]).contains(';'),
        0 <= i < pairs.len(),
        trim(pairs[i]) == key + seq!['='] + value,
        forall|j: int| 0 <= j < i ==> !names(trim(#[trigger] pairs[j]), key),
    ensures
        cookie(join(pairs, seq![';']), key) == Some(value),
{
    law_joined_pieces_are_cut_apart(pairs, ';');
    lemma_pair_value(pairs, key, value, i);
}

proof fn lemma_no_pair_value(pairs: Seq<Seq<char>>, key: Seq<char>)
    requires
        !key.contains('='),
        forall|j: int| 0 <= j < pairs.len() ==> !names(trim(#[trigger] pairs[j]), key),
    ensures
        pair_value(pairs, key) is None,
    decreases pairs.len(),
{
    if pairs.len() > 0 {
        lemma_names(trim(pairs[0]), key);
        assert(!names(trim(pairs[0]), key));
        let rest = pairs.skip(1);
        assert forall|j: int| 0 <= j < rest.len() implies !names(trim(#[trigger] rest[j]), key) by {
            assert(rest[j] == pairs[j + 1]);
        }
        lemma_no_pair_value(rest, key);
    }
}

/// A header without a pair of the name has no such cookie.
pub proof fn law_no_cookie_without_a_pair(pairs: Seq<Seq<char>>, key: Seq<char>)
    requires
        !key.contains('='),
        pairs.len() > 0,
        forall|k: int| 0 <= k < pairs.len() ==> !(#[trigger] pairs[k]).contains(';'),
        forall|j: int| 0 <= j < pairs.len() ==> !names(trim(#[trigger] pairs[j]), key),
    ensures
        cookie(join(pairs, seq![';']), key) is None,
{
    law_joined_pieces_are_cut_apart(pairs, ';');
    lemma_no_pair_value(pairs, key);
}

// Queries

/// The text gives the parameter the value; a name alone gives it an empty one.
pub open spec fn gives(pair: Seq<char>, key: Seq<char>, value: Seq<char>) -> bool {
    pair == key + seq!['='] + value || (pair == key && value.len() == 0)
}

proof fn lemma_gives(pair: Seq<char>, key: Seq<char>)
    requires
        !key.contains('='),
    ensures
        crate::params::query_pair(pair).0 == key ==> gives(
            pair,
            key,
            crate::params::query_pair(pair).1,
        ),
        forall|value: Seq<char>| #[trigger]
            gives(pair, key, value) ==> crate::params::query_pair(pair) == (key, value),
{
    lemma_first_from(pair, CharSet::Only('='), 0);
    if let Some((name, value)) = split_once(pair, '=') {
        assert(pair =~= name + seq!['='] + value);
    }
    assert forall|value: Seq<char>| #[trigger] gives(pair, key, value) implies crate::params::query_pair(
        pair,
    ) == (key, value) by {
        law_cut_at_a_character(key, value, '=');
        if value.len() == 0 {
            assert(value =~= Seq::<char>::empty());
        }
    }
}

proof fn lemma_decoded_value(pairs: Seq<Seq<char>>, key: Seq<char>, value: Seq<char>, i: int)
    requires
        !key.contains('='),
        0 <= i < pairs.len(),
        gives(pairs[i], key, value),
        percent_text(plus_to_space(value)) is Ok,
        forall|j: int, v: Seq<char>|
            0 <= j < i && #[trigger] gives(pairs[j], key, v) ==> percent_text(
                plus_to_space(v),
            ) is Err,
    ensures
        decoded_value(pairs, key) == Some(percent_text(plus_to_space(value))->Ok_0),
    decreases pairs.len(),
{
    lemma_gives(pairs[0], key);
    if i > 0 {
        let rest = pairs.skip(1);
        assert(rest[i - 1] == pairs[i]);
        assert forall|j: int, v: Seq<char>|
            0 <= j < i - 1 && #[trigger] gives(rest[j], key, v) implies percent_text(
            plus_to_space(v),
        ) is Err by {
            assert(rest[j] == pairs[j + 1]);
            assert(gives(pairs[j + 1], key, v));
        }
        lemma_decoded_value(rest, key, value, i - 1);
    }
}

/// The value of a parameter is that of the first part of the query which gives it one that can be
/// decoded, with the escapes resolved and spaces for plus signs.
pub proof fn law_parameter_among_others(
    pairs: Seq<Seq<char>>,
    key: Seq<char>,
    value: Seq<char>,
    i: int,
)
    requires
        !key.contains('='),
        forall|k: int| 0 <= k < pairs.len() ==> !(#[trigger] pairs[k]).contains('&'),
        0 <= i < pairs.len(),
        gives(pairs[i], key, value),
        percent_text(plus_to_space(value)) is Ok,
        forall|j: int, v: Seq<char>|
            0 <= j < i && #[trigger] gives(pairs[j], key, v) ==> percent_text(
                plus_to_space(v),
            ) is Err,
    ensures
        query_parameter(join(pairs, seq!['&']), key) == Some(
            percent_text(plus_to_space(value))->Ok_0,
        ),
{
    law_joined_pieces_are_cut_apart(pairs, '&');
    lemma_decoded_value(pairs, key, value, i);
}

proof fn lemma_no_decoded_value(pairs: Seq<Seq<char>>, key: Seq<char>)
    requires
        !key.contains('='),
        forall|j: int, v: Seq<char>|
            0 <= j < pairs.len() && #[trigger] gives(pairs[j], key, v) ==> percent_text(
                plus_to_space(v),
            ) is Err,
    ensures
        decoded_value(pairs, key) is None,
    decreases pairs.len(),
{
    if pairs.len() > 0 {
        lemma_gives(pairs[0], key);
        let rest = pairs.skip(1);
        assert forall|j: int, v: Seq<char>|
            0 <= j < rest.len() && #[trigger] gives(rest[j], key, v) implies percent_text(
            plus_to_space(v),
        ) is Err by {
            assert(rest[j] == pairs[j + 1]);
            assert(gives(pairs[j + 1], key, v));
        }
        lemma_no_decoded_value(rest, key);
    }
}

/// A query in which nothing gives the parameter a value that can be decoded has none for it.
pub proof fn law_no_parameter_without_a_value(pairs: Seq<Seq<char>>, key: Seq<char>)
    requires
        !key.contains('='),
        pairs.len() > 0,
        forall|k: int| 0 <= k < pairs.len() ==> !(#[trigger] pairs[k]).contains('&'),
        forall|j: int, v: Seq<char>|
            0 <= j < pairs.len() && #[trigger] gives(pairs[j], key, v) ==> percent_text(
                plus_to_space(v),
            ) is Err,
    ensures
        query_parameter(join(pairs, seq!['&']), key) is None,
{
    law_joined_pieces_are_cut_apart(pairs, '&');
    lemma_no_decoded_value(pairs, key);
}

/// Plus signs become spaces, and nothing else changes.
pub proof fn law_plus_signs(s: Seq<char>, i: int)
    requires
        0 <= i < s.len(),
    ensures
        plus_to_space(s).len() == s.len(),
        s[i] == '+' ==> plus_to_space(s)[i] == ' ',
        s[i] != '+' ==> plus_to_space(s)[i] == s[i],
{
}

proof fn lemma_no_plus(b: Seq<u8>)
    ensures
        forall|i: int| 0 <= i < url_bytes(b).len() ==> (#[trigger] url_bytes(b)[i]) != '+',
    decreases b.len(),
{
    if b.len() > 0 {
        lemma_no_plus(b.drop_last());
        let front = url_bytes(b.drop_last());
        let back = url_byte(b.last());
        let v = b.last();
        assert(0 <= v as int / 16 < 16 && 0 <= v as int % 16 < 16);
        assert forall|i: int| 0 <= i < url_bytes(b).len() implies (#[trigger] url_bytes(b)[i])
            != '+' by {
            if i < front.len() {
                assert(url_bytes(b)[i] == front[i]);
            } else {
                assert(url_bytes(b)[i] == back[i - front.len()]);
            }
        }
    }
}

/// A parameter whose value was escaped has that value, whatever its characters are.
pub proof fn law_escaped_parameter_leads_back(key: Seq<char>, value: Seq<char>)
    requires
        !key.contains('='),
        !(key + seq!['='] + url_text(value)).contains('&'),
    ensures
        query_parameter(key + seq!['='] + url_text(value), key) == Some(value),
{
    law_escaped_name_leads_back(value);
    lemma_no_plus(encode_utf8(value));
    assert(plus_to_space(url_text(value)) =~= url_text(value));
    let pair = key + seq!['='] + url_text(value);
    let pairs = seq![pair];
    law_joined_parts(Seq::empty(), Seq::empty(), pair, seq!['&']);
    assert(gives(pairs[0], key, url_text(value)));
    law_parameter_among_others(pairs, key, url_text(value), 0);
}

// Hosts

/// The text starts and ends with a character that is seen.
pub open spec fn is_seen(s: Seq<char>) -> bool {
    s.len() > 0 && '!' <= s[0] <= '~' && '!' <= s[s.len() - 1] <= '~'
}

pub proof fn lemma_seen(s: Seq<char>)
    requires
        is_seen(s),
    ensures
        trim(s) == s,
{
    law_white_space(s[0]);
    law_white_space(s[s.len() - 1]);
    assert(trim_start(s, CharSet::Space) == s);
    assert(trim_end(s, CharSet::Space) == s);
}

/// The host is what stands before the port, or the whole where there is none; an address between
/// brackets stands for itself, whatever follows.
pub proof fn law_host_without_its_port(host: Seq<char>, port: Seq<char>)
    ensures
        is_seen(host) && host[0] != '[' && !host.contains(':') ==> host_name(host) == host,
        is_seen(host) && host[0] != '[' && !host.contains(':') && (port.len() == 0 || is_seen(port))
            ==> host_name(host + seq![':'] + port) == host,
        !host.contains(']') && (port.len() == 0 || is_seen(port)) ==> host_name(
            seq!['['] + host + seq![']'] + port,
        ) == host,
{
    if is_seen(host) && host[0] != '[' && !host.contains(':') {
        lemma_seen(host);
        law_cut_at_a_character(host, port, ':');
        if port.len() == 0 || is_seen(port) {
            let s = host + seq![':'] + port;
            assert(s[0] == host[0]);
            assert(s[s.len() - 1] == if port.len() == 0 { ':' } else { port[port.len() - 1] });
            lemma_seen(s);
        }
    }
    if !host.contains(']') && (port.len() == 0 || is_seen(port)) {
        let s = seq!['['] + host + seq![']'] + port;
        let set = CharSet::Only(']');
        assert(s[0] == '[');
        assert(s[s.len() - 1] == if port.len() == 0 { ']' } else { port[port.len() - 1] });
        lemma_seen(s);
        let n = host.len() as int + 1;
        assert forall|j: int| 0 <= j < n implies !set.has(#[trigger] s[j]) by {
            if j > 0 {
                assert(s[j] == host[j - 1]);
                if host[j - 1] == ']' {
                    assert(host.contains(']'));
                }
            }
        }
        assert(s[n] == ']');
        lemma_first_is(s, set, 0, n);
        assert(s.subrange(1, n) =~= host);
    }
}

// Escapes

/// In JSON, quotes and backslashes get a backslash, line ends and tabs become their letters, and
/// every other character stays.
pub proof fn law_json_escapes(s: Seq<char>, c: char)
    ensures
        json_text(Seq::empty()) == Seq::<char>::empty(),
        json_text(s.push(c)) == json_text(s) + match c {
            '\\' => seq!['\\', '\\'],
            '"' => seq!['\\', '"'],
            '\n' => seq!['\\', 'n'],
            '\r' => seq!['\\', 'r'],
            '\t' => seq!['\\', 't'],
            _ => seq![c],
        },
{
    reveal_strlit("\\\\");
    reveal_strlit("\\\"");
    reveal_strlit("\\n");
    reveal_strlit("\\r");
    reveal_strlit("\\t");
    assert("\\\\"@ =~= seq!['\\', '\\']);
    assert("\\\""@ =~= seq!['\\', '"']);
    assert("\\n"@ =~= seq!['\\', 'n']);
    assert("\\r"@ =~= seq!['\\', 'r']);
    assert("\\t"@ =~= seq!['\\', 't']);
    assert(s.push(c).drop_last() =~= s);
}

/// In a link, letters, digits, dashes, underscores, dots and tildes stand for themselves, and every
/// other byte is escaped.
pub proof fn law_link_escapes(b: Seq<u8>, c: u8)
    ensures
        url_bytes(Seq::empty()) == Seq::<char>::empty(),
        url_bytes(b.push(c)) == url_bytes(b) + url_byte(c),
        ('a' as u32 <= c <= 'z' as u32 || 'A' as u32 <= c <= 'Z' as u32 || '0' as u32 <= c
            <= '9' as u32 || c == '-' as u32 || c == '_' as u32 || c == '.' as u32 || c
            == '~' as u32) ==> url_byte(c) == seq![c as char],
        !('a' as u32 <= c <= 'z' as u32 || 'A' as u32 <= c <= 'Z' as u32 || '0' as u32 <= c
            <= '9' as u32 || c == '-' as u32 || c == '_' as u32 || c == '.' as u32 || c
            == '~' as u32) ==> url_byte(c).len() == 3 && url_byte(c)[0] == '%',
{
    assert(b.push(c).drop_last() =~= b);
}

// Forms

proof fn lemma_after_prefix(
    pieces: Seq<Seq<char>>,
    prefix: Seq<char>,
    value: Seq<char>,
    i: int,
)
    requires
        0 <= i < pieces.len(),
        trim(pieces[i]) == prefix + value,
        forall|j: int| 0 <= j < i ==> !begins(trim(#[trigger] pieces[j]), prefix),
    ensures
        after_prefix(pieces, prefix) == Some(value),
    decreases pieces.len(),
{
    let t = trim(pieces[0]);
    if i == 0 {
        assert(t.take(prefix.len() as int) =~= prefix);
        assert(t.skip(prefix.len() as int) =~= value);
    } else {
        assert(!begins(trim(pieces[0]), prefix));
        if starts_with(t, prefix) {
            assert(t =~= prefix + t.skip(prefix.len() as int));
        }
        let rest = pieces.skip(1);
        assert forall|j: int| 0 <= j < i - 1 implies !begins(trim(#[trigger] rest[j]), prefix) by {
            assert(rest[j] == pieces[j + 1]);
        }
        lemma_after_prefix(rest, prefix, value, i - 1);
    }
}

proof fn lemma_no_prefix(pieces: Seq<Seq<char>>, prefix: Seq<char>)
    requires
        forall|j: int| 0 <= j < pieces.len() ==> !begins(trim(#[trigger] pieces[j]), prefix),
    ensures
        after_prefix(pieces, prefix) is None,
    decreases pieces.len(),
{
    if pieces.len() > 0 {
        let t = trim(pieces[0]);
        assert(!begins(trim(pieces[0]), prefix));
        if starts_with(t, prefix) {
            assert(t =~= prefix + t.skip(prefix.len() as int));
        }
        let rest = pieces.skip(1);
        assert forall|j: int| 0 <= j < rest.len() implies !begins(trim(#[trigger] rest[j]), prefix) by {
            assert(rest[j] == pieces[j + 1]);
        }
        lemma_no_prefix(rest, prefix);
    }
}

/// The text begins with the prefix.
pub open spec fn begins(s: Seq<char>, prefix: Seq<char>) -> bool {
    exists|rest: Seq<char>| s == #[trigger] (prefix + rest)
}

/// The text, or the text between quotes.
pub open spec fn is_quoted(value: Seq<char>, text: Seq<char>) -> bool {
    value == text || value == seq!['"'] + text + seq!['"']
}

#[verifier::spinoff_prover]
proof fn lemma_quoted(value: Seq<char>, text: Seq<char>)
    requires
        is_quoted(value, text),
        text.len() > 0 ==> text[0] != '"' && text[text.len() - 1] != '"',
    ensures
        trim_both(value, CharSet::Only('"')) == text,
{
    let set = CharSet::Only('"');
    let none = Seq::<char>::empty();
    assert(trim_start(text, set) == text);
    assert(trim_end(text, set) == text);
    let q = seq!['"'] + text + seq!['"'];
    let tail = text + seq!['"'];
    assert(q.skip(1) =~= tail);
    assert(tail.drop_last() =~= text);
    assert(trim_end(tail, set) == text);
    if text.len() > 0 {
        assert(tail[0] == text[0]);
        assert(trim_start(tail, set) == tail);
    } else {
        assert(text =~= none);
        assert(tail.skip(1) =~= none);
        assert(trim_start(none, set) == none);
        assert(trim_start(tail, set) == none);
    }
    assert(trim_start(q, set) == trim_start(tail, set));
}

/// The boundary of a form is what the first part of its type that gives one says, with or without
/// quotes; a type without such a part gives none.
pub proof fn law_boundary_of_a_form(
    pieces: Seq<Seq<char>>,
    value: Seq<char>,
    text: Seq<char>,
    i: int,
)
    requires
        pieces.len() > 0,
        forall|k: int| 0 <= k < pieces.len() ==> !(#[trigger] pieces[k]).contains(';'),
        text.len() > 0,
        text[0] != '"',
        text[text.len() - 1] != '"',
        is_quoted(value, text),
    ensures
        0 <= i < pieces.len() && trim(pieces[i]) == "boundary="@ + value && (forall|j: int|
            0 <= j < i ==> !begins(trim(#[trigger] pieces[j]), "boundary="@)) ==> boundary(
            join(pieces, seq![';']),
        ) == Some(text),
        (forall|j: int|
            0 <= j < pieces.len() ==> !begins(trim(#[trigger] pieces[j]), "boundary="@))
            ==> boundary(join(pieces, seq![';'])) is None,
{
    law_joined_pieces_are_cut_apart(pieces, ';');
    lemma_quoted(value, text);
    if 0 <= i < pieces.len() && trim(pieces[i]) == "boundary="@ + value && (forall|j: int|
        0 <= j < i ==> !begins(trim(#[trigger] pieces[j]), "boundary="@)) {
        lemma_after_prefix(pieces, "boundary="@, value, i);
    }
    if forall|j: int| 0 <= j < pieces.len() ==> !begins(trim(#[trigger] pieces[j]), "boundary="@) {
        lemma_no_prefix(pieces, "boundary="@);
    }
}

/// The name of a file in a form is what the header that says how the part is to be used gives, with
/// or without quotes, among its other parts; headers of other kinds before it do not count.
pub proof fn law_name_of_a_file_in_a_form(
    lines: Seq<Seq<char>>,
    k: int,
    pieces: Seq<Seq<char>>,
    i: int,
    value: Seq<char>,
    text: Seq<char>,
)
    requires
        0 <= k < lines.len(),
        forall|j: int|
            0 <= j < k ==> !begins(lower(#[trigger] lines[j]), "content-disposition:"@),
        begins(lower(lines[k]), "content-disposition:"@),
        pieces.len() > 0,
        forall|j: int| 0 <= j < pieces.len() ==> !(#[trigger] pieces[j]).contains(';'),
        lines[k] == join(pieces, seq![';']),
        0 <= i < pieces.len(),
        trim(pieces[i]) == "filename="@ + value,
        forall|j: int| 0 <= j < i ==> !begins(trim(#[trigger] pieces[j]), "filename="@),
        text.len() > 0 ==> text[0] != '"' && text[text.len() - 1] != '"',
        is_quoted(value, text),
    ensures
        file_name(lines) == Some(text),
    decreases lines.len(),
{
    let l = lower(lines[0]);
    if k == 0 {
        law_joined_pieces_are_cut_apart(pieces, ';');
        lemma_quoted(value, text);
        lemma_after_prefix(pieces, "filename="@, value, i);
        let rest = choose|rest: Seq<char>| l == #[trigger] ("content-disposition:"@ + rest);
        assert(l.take("content-disposition:"@.len() as int) =~= "content-disposition:"@);
    } else {
        assert(!begins(lower(lines[0]), "content-disposition:"@));
        if starts_with(l, "content-disposition:"@) {
            assert(l =~= "content-disposition:"@ + l.skip("content-disposition:"@.len() as int));
        }
        let later = lines.skip(1);
        assert forall|j: int| 0 <= j < k - 1 implies !begins(
            lower(#[trigger] later[j]),
            "content-disposition:"@,
        ) by {
            assert(later[j] == lines[j + 1]);
        }
        law_name_of_a_file_in_a_form(later, k - 1, pieces, i, value, text);
    }
}

} // verus!
