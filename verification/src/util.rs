//! URL and file system paths, escaping, and safe file names.

use crate::http::result_view;
use crate::number::{hex_digit, hex_value};
use crate::text::{
    is_text, join, join_slices, lemma_one_word, lemma_texts_push, lemma_words, lemma_words_append,
    push_chars, starts_with, texts, to_chars, trim, trim_slice, trim_start, utf8_text, words,
    words_slice, CharSet,
};
use vstd::prelude::*;
use vstd::slice::slice_subrange;
use vstd::utf8::{decode_utf8, encode_utf8, valid_utf8};

verus! {

// Percent escapes

/// The value of a hexadecimal digit.
pub fn hex(b: u8) -> (r: Option<u8>)
    ensures
        match r {
            Some(v) => hex_value(b as char) == Some(v as int) && v < 16,
            None => hex_value(b as char) is None,
        },
{
    match hex_digit(b as char) {
        Some(v) => Some(v as u8),
        None => None,
    }
}

/// Bytes with their percent escapes resolved.
pub open spec fn percent_bytes(b: Seq<u8>) -> Result<Seq<u8>, Seq<char>>
    decreases b.len(),
{
    if b.len() == 0 {
        Ok(Seq::empty())
    } else if b[0] == 37 {
        if b.len() < 3 {
            Err("truncated percent escape"@)
        } else {
            match (hex_value(b[1] as char), hex_value(b[2] as char)) {
                (Some(high), Some(low)) => prepend(
                    seq![(high * 16 + low) as u8],
                    percent_bytes(b.skip(3)),
                ),
                _ => Err("invalid percent escape"@),
            }
        }
    } else {
        prepend(seq![b[0]], percent_bytes(b.skip(1)))
    }
}

/// A result with bytes put before it.
pub open spec fn prepend(first: Seq<u8>, rest: Result<Seq<u8>, Seq<char>>) -> Result<
    Seq<u8>,
    Seq<char>,
> {
    match rest {
        Ok(bytes) => Ok(first + bytes),
        Err(message) => Err(message),
    }
}

/// A text with its percent escapes resolved.
pub open spec fn percent_text(s: Seq<char>) -> Result<Seq<char>, Seq<char>> {
    match percent_bytes(encode_utf8(s)) {
        Err(message) => Err(message),
        Ok(bytes) => if valid_utf8(bytes) {
            Ok(decode_utf8(bytes))
        } else {
            Err("URL path is not valid UTF-8"@)
        },
    }
}

/// Resolves percent escapes.
pub fn percent_decode(input: &str) -> (r: Result<String, String>)
    ensures
        result_view(r) == percent_text(input@),
{
    let bytes = input.as_bytes();
    let mut out: Vec<u8> = Vec::new();
    let mut i: usize = 0;
    let n: usize = bytes.len();
    assert(bytes@.skip(0) =~= bytes@);
    assert(prepend(out@, percent_bytes(bytes@)) == percent_bytes(bytes@)) by {
        if let Ok(rest) = percent_bytes(bytes@) {
            assert(out@ + rest =~= rest);
        }
    }
    while i < n
        invariant
            0 <= i <= n,
            n == bytes@.len(),
            bytes@ == encode_utf8(input@),
            percent_bytes(bytes@) == prepend(out@, percent_bytes(bytes@.skip(i as int))),
        decreases n - i,
    {
        let ghost rest = bytes@.skip(i as int);
        let ghost done = out@;
        if bytes[i] == 37 {
            if n - i < 3 {
                return Err("truncated percent escape".to_owned());
            }
            let high = hex(bytes[i + 1]);
            let low = hex(bytes[i + 2]);
            match (high, low) {
                (Some(h), Some(l)) => {
                    let byte: u8 = h * 16 + l;
                    proof {
                        assert(rest.skip(3) =~= bytes@.skip(i + 3));
                        if let Ok(tail) = percent_bytes(rest.skip(3)) {
                            assert(done + (seq![byte] + tail) =~= done.push(byte) + tail);
                        }
                    }
                    out.push(byte);
                    i = i + 3;
                },
                _ => {
                    return Err("invalid percent escape".to_owned());
                },
            }
        } else {
            let byte: u8 = bytes[i];
            proof {
                assert(rest.skip(1) =~= bytes@.skip(i + 1));
                if let Ok(tail) = percent_bytes(rest.skip(1)) {
                    assert(done + (seq![byte] + tail) =~= done.push(byte) + tail);
                }
            }
            out.push(byte);
            i = i + 1;
        }
    }
    assert(out@ + Seq::<u8>::empty() =~= out@);
    match utf8_text(out.as_slice()) {
        Some(s) => Ok(s),
        None => Err("URL path is not valid UTF-8".to_owned()),
    }
}

// Paths

/// The segments of a path other than the one that stands for the current directory.
pub open spec fn kept(segments: Seq<Seq<char>>) -> Seq<Seq<char>>
    decreases segments.len(),
{
    if segments.len() == 0 {
        Seq::empty()
    } else if segments.last() == "."@ {
        kept(segments.drop_last())
    } else {
        kept(segments.drop_last()).push(segments.last())
    }
}

/// The segments of a path, without empty ones and those for the current directory.
pub open spec fn segments(path: Seq<char>) -> Seq<Seq<char>> {
    kept(words(path, CharSet::Only('/')))
}

/// The path leads to a parent directory.
pub open spec fn has_parent(path: Seq<char>) -> bool {
    segments(path).contains(".."@)
}

/// The segments of a path.
pub fn path_segments<'a>(path: &'a [char]) -> (r: Vec<&'a [char]>)
    ensures
        texts(r@) == segments(path@),
        r@.len() == segments(path@).len(),
{
    let all = words_slice(path, CharSet::Only('/'));
    let ghost names = words(path@, CharSet::Only('/'));
    let mut out: Vec<&'a [char]> = Vec::new();
    let mut i: usize = 0;
    assert(texts(out@) =~= kept(names.take(0)));
    while i < all.len()
        invariant
            0 <= i <= all@.len(),
            texts(all@) == names,
            names == words(path@, CharSet::Only('/')),
            texts(out@) == kept(names.take(i as int)),
        decreases all.len() - i,
    {
        let ghost part = names.take(i + 1);
        assert(part.drop_last() =~= names.take(i as int));
        assert(part.last() == all@[i as int]@);
        if !is_text(all[i], ".") {
            proof {
                lemma_texts_push(out@, all@[i as int]);
            }
            out.push(all[i]);
        }
        i = i + 1;
    }
    assert(names.take(names.len() as int) =~= names);
    assert(texts(out@).len() == out@.len());
    out
}

/// Whether one of the names leads to the parent directory.
fn any_parent(parts: &[&[char]]) -> (r: bool)
    ensures
        r == texts(parts@).contains(".."@),
{
    let ghost names = texts(parts@);
    let mut i: usize = 0;
    while i < parts.len()
        invariant
            0 <= i <= parts@.len(),
            names == texts(parts@),
            forall|k: int| 0 <= k < i ==> names[k] != ".."@,
        decreases parts.len() - i,
    {
        assert(names[i as int] == parts@[i as int]@);
        if is_text(parts[i], "..") {
            return true;
        }
        i = i + 1;
    }
    false
}

/// The path that the segments make up below the root.
pub open spec fn absolute(segments: Seq<Seq<char>>) -> Seq<char> {
    "/"@ + join(segments, "/"@)
}

/// The normal form of a request path.
pub open spec fn normal_path(path: Seq<char>) -> Result<Seq<char>, Seq<char>> {
    match percent_text(path) {
        Err(message) => Err(message),
        Ok(decoded) => if decoded.len() == 0 || decoded[0] != '/' || decoded.contains('\0') {
            Err("invalid request path"@)
        } else if has_parent(decoded) {
            Err("parent path traversal is forbidden"@)
        } else {
            Ok(absolute(segments(decoded)))
        },
    }
}

fn holds_nul(s: &[char]) -> (r: bool)
    ensures
        r == s@.contains('\0'),
{
    let mut i: usize = 0;
    while i < s.len()
        invariant
            0 <= i <= s@.len(),
            forall|k: int| 0 <= k < i ==> s@[k] != '\0',
        decreases s.len() - i,
    {
        if s[i] == '\0' {
            return true;
        }
        i = i + 1;
    }
    false
}

/// Resolves the escapes of a request path, drops its empty and current-directory segments, and
/// refuses one that leads to a parent directory.
pub fn normalize_url_path(path: &str) -> (r: Result<String, String>)
    ensures
        result_view(r) == normal_path(path@),
{
    let decoded = match percent_decode(path) {
        Ok(s) => to_chars(s.as_str()),
        Err(message) => {
            return Err(message);
        },
    };
    if decoded.len() == 0 || decoded[0] != '/' || holds_nul(decoded.as_slice()) {
        return Err("invalid request path".to_owned());
    }
    let parts = path_segments(decoded.as_slice());
    if any_parent(parts.as_slice()) {
        return Err("parent path traversal is forbidden".to_owned());
    }
    let mut out = "/".to_owned();
    push_chars(&mut out, join_slices(parts.as_slice(), "/").as_slice());
    Ok(out)
}

/// A path with one more name.
pub open spec fn push_name(path: Seq<char>, name: Seq<char>) -> Seq<char> {
    if path.len() == 0 || path.last() == '/' {
        path + name
    } else {
        path + "/"@ + name
    }
}

/// A path followed from another one: from there where it is relative, else by itself.
pub open spec fn followed(path: Seq<char>, name: Seq<char>) -> Seq<char> {
    if name.len() > 0 && name[0] == '/' {
        name
    } else {
        push_name(path, name)
    }
}

/// A path with more names.
pub open spec fn push_names(path: Seq<char>, names: Seq<Seq<char>>) -> Seq<char>
    decreases names.len(),
{
    if names.len() == 0 {
        path
    } else {
        push_name(push_names(path, names.drop_last()), names.last())
    }
}

/// A relative path below a root. A path that is absolute or leads to a parent is refused.
pub open spec fn join_below(root: Seq<char>, relative: Seq<char>) -> Result<Seq<char>, Seq<char>> {
    if (relative.len() > 0 && relative[0] == '/') || has_parent(relative) {
        Err("unsafe filesystem path"@)
    } else {
        Ok(push_names(root, segments(relative)))
    }
}

/// Appends a name to a path.
pub fn push_path(path: &mut String, name: &[char])
    ensures
        final(path)@ == push_name(old(path)@, name@),
{
    let chars = to_chars(path.as_str());
    let n: usize = chars.len();
    if n > 0 && chars[n - 1] != '/' {
        path.append("/");
    }
    push_chars(path, name);
}

/// Follows a path from another one.
pub fn follow(path: &str, name: &str) -> (r: String)
    ensures
        r@ == followed(path@, name@),
{
    let chars = to_chars(name);
    if chars.len() > 0 && chars[0] == '/' {
        return name.to_owned();
    }
    let mut r = path.to_owned();
    push_path(&mut r, chars.as_slice());
    r
}

/// Joins a relative path to a root.
pub fn safe_join(root: &str, relative: &str) -> (r: Result<String, String>)
    ensures
        result_view(r) == join_below(root@, relative@),
{
    let chars = to_chars(relative);
    let parts = path_segments(chars.as_slice());
    if (chars.len() > 0 && chars[0] == '/') || any_parent(parts.as_slice()) {
        return Err("unsafe filesystem path".to_owned());
    }
    let ghost names = segments(relative@);
    let mut path = root.to_owned();
    let mut i: usize = 0;
    while i < parts.len()
        invariant
            0 <= i <= parts@.len(),
            names == texts(parts@),
            path@ == push_names(root@, names.take(i as int)),
        decreases parts.len() - i,
    {
        assert(names.take(i + 1).drop_last() =~= names.take(i as int));
        assert(names.take(i + 1).last() == parts@[i as int]@);
        push_path(&mut path, parts[i]);
        i = i + 1;
    }
    assert(names.take(names.len() as int) =~= names);
    Ok(path)
}

// File names

/// The part of a path after its last separator, where a backslash separates too.
pub open spec fn base_name(s: Seq<char>) -> Seq<char>
    decreases s.len(),
{
    if s.len() == 0 || s.last() == '/' || s.last() == '\\' {
        Seq::empty()
    } else {
        base_name(s.drop_last()).push(s.last())
    }
}

/// The character itself where it is safe in a file name, else an underscore.
pub open spec fn safe_char(c: char) -> char {
    if 'a' <= c <= 'z' || 'A' <= c <= 'Z' || '0' <= c <= '9' || c == '.' || c == '-' || c == '_' {
        c
    } else {
        '_'
    }
}

/// The safe file name for an uploaded name.
pub open spec fn safe_name(name: Seq<char>) -> Option<Seq<char>> {
    let base = trim(base_name(trim(name)));
    if base.len() == 0 || base == "."@ || base == ".."@ || base.contains('\0') {
        None
    } else {
        Some(base.map_values(|c: char| safe_char(c)))
    }
}

/// The text of an optional string.
pub open spec fn string_text(s: Option<String>) -> Option<Seq<char>> {
    match s {
        Some(v) => Some(v@),
        None => None,
    }
}

proof fn lemma_base_name(s: Seq<char>, k: int)
    requires
        0 <= k <= s.len(),
        forall|j: int| k <= j < s.len() ==> #[trigger] s[j] != '/' && s[j] != '\\',
        k == 0 || s[k - 1] == '/' || s[k - 1] == '\\',
    ensures
        base_name(s) == s.skip(k),
    decreases s.len(),
{
    if k < s.len() {
        lemma_base_name(s.drop_last(), k);
        assert(s.skip(k) =~= s.drop_last().skip(k).push(s.last()));
    }
}

/// Reduces an uploaded name to a safe file name.
pub fn sanitize_filename(name: &str) -> (r: Option<String>)
    ensures
        string_text(r) == safe_name(name@),
{
    let chars = to_chars(name);
    let trimmed = trim_slice(chars.as_slice());
    let n: usize = trimmed.len();
    let mut k: usize = n;
    while k > 0 && trimmed[k - 1] != '/' && trimmed[k - 1] != '\\'
        invariant
            0 <= k <= n,
            n == trimmed@.len(),
            forall|j: int| k <= j < n ==> #[trigger] trimmed@[j] != '/' && trimmed@[j] != '\\',
        decreases k,
    {
        k = k - 1;
    }
    proof {
        lemma_base_name(trimmed@, k as int);
    }
    let base = trim_slice(slice_subrange(trimmed, k, n));
    if base.len() == 0 || is_text(base, ".") || is_text(base, "..") || holds_nul(base) {
        return None;
    }
    let mut out = String::new();
    let mut i: usize = 0;
    let ghost safe = base@.map_values(|c: char| safe_char(c));
    while i < base.len()
        invariant
            0 <= i <= base@.len(),
            safe == base@.map_values(|c: char| safe_char(c)),
            out@ == safe.take(i as int),
        decreases base.len() - i,
    {
        let c = base[i];
        let d = if ('a' <= c && c <= 'z') || ('A' <= c && c <= 'Z') || ('0' <= c && c <= '9') || c
            == '.' || c == '-' || c == '_' {
            c
        } else {
            '_'
        };
        out.push(d);
        i = i + 1;
        assert(out@ =~= safe.take(i as int));
    }
    assert(safe.take(safe.len() as int) =~= safe);
    Some(out)
}

// HTML

/// What stands for a character in HTML text.
pub open spec fn html_char(c: char) -> Seq<char> {
    if c == '&' {
        "&amp;"@
    } else if c == '<' {
        "&lt;"@
    } else if c == '>' {
        "&gt;"@
    } else if c == '"' {
        "&quot;"@
    } else if c == '\'' {
        "&#39;"@
    } else {
        seq![c]
    }
}

/// A text as HTML.
pub open spec fn html_text(s: Seq<char>) -> Seq<char>
    decreases s.len(),
{
    if s.len() == 0 {
        Seq::empty()
    } else {
        html_text(s.drop_last()) + html_char(s.last())
    }
}

/// Escapes the characters that HTML reads as markup.
pub fn html_escape(input: &str) -> (r: String)
    ensures
        r@ == html_text(input@),
{
    let chars = to_chars(input);
    let mut out = String::new();
    let mut i: usize = 0;
    while i < chars.len()
        invariant
            0 <= i <= chars@.len(),
            out@ == html_text(chars@.take(i as int)),
        decreases chars.len() - i,
    {
        assert(chars@.take(i + 1).drop_last() =~= chars@.take(i as int));
        let c = chars[i];
        if c == '&' {
            out.append("&amp;");
        } else if c == '<' {
            out.append("&lt;");
        } else if c == '>' {
            out.append("&gt;");
        } else if c == '"' {
            out.append("&quot;");
        } else if c == '\'' {
            out.append("&#39;");
        } else {
            out.push(c);
        }
        i = i + 1;
    }
    assert(chars@.take(chars@.len() as int) =~= chars@);
    out
}

// Time

/// `SystemTime::now`, as milliseconds since the Unix epoch; zero where the clock stands before
/// it. Nothing is claimed of the value.
#[verifier::external_body]
pub fn now_millis() -> u128 {
    std::time::SystemTime::now()
        .duration_since(std::time::UNIX_EPOCH)
        .unwrap_or_default()
        .as_millis()
}

// What paths keep

/// A segment that names something below a directory: not empty, without a separator, and neither
/// the directory itself nor its parent.
pub open spec fn is_name(s: Seq<char>) -> bool {
    s.len() > 0 && !s.contains('/') && s != "."@ && s != ".."@
}

/// All of the segments name something below a directory.
pub open spec fn all_names(segments: Seq<Seq<char>>) -> bool {
    forall|k: int| 0 <= k < segments.len() ==> is_name(#[trigger] segments[k])
}

proof fn lemma_kept(segments: Seq<Seq<char>>)
    ensures
        forall|k: int|
            0 <= k < kept(segments).len() ==> segments.contains(#[trigger] kept(segments)[k])
                && kept(segments)[k] != "."@,
        !segments.contains("."@) ==> kept(segments) == segments,
    decreases segments.len(),
{
    if segments.len() > 0 {
        let init = segments.drop_last();
        lemma_kept(init);
        assert forall|x: Seq<char>| #[trigger] init.contains(x) implies segments.contains(x) by {
            let j = init.index_of(x);
            assert(segments[j] == x);
        }
        assert(segments[segments.len() - 1] == segments.last());
        assert forall|k: int| 0 <= k < kept(segments).len() implies segments.contains(
            #[trigger] kept(segments)[k],
        ) && kept(segments)[k] != "."@ by {
            if k < kept(init).len() {
                assert(kept(segments)[k] == kept(init)[k]);
                assert(init.contains(kept(init)[k]));
            }
        }
        if !segments.contains("."@) {
            assert(!init.contains("."@));
            assert(kept(segments) =~= segments);
        }
    }
}

/// Names are kept as segments.
pub proof fn lemma_names_are_kept(names: Seq<Seq<char>>)
    requires
        all_names(names),
    ensures
        kept(names) == names,
        !names.contains(".."@),
{
    lemma_kept(names);
    if names.contains("."@) {
        let j = names.index_of("."@);
        assert(is_name(names[j]));
    }
    if names.contains(".."@) {
        let j = names.index_of(".."@);
        assert(is_name(names[j]));
    }
}

/// The segments of a path that leads to no parent name things below the directory it starts from.
pub proof fn lemma_segments_are_names(path: Seq<char>)
    ensures
        !has_parent(path) ==> all_names(segments(path)),
{
    let set = CharSet::Only('/');
    let all = words(path, set);
    lemma_kept(all);
    if !has_parent(path) {
        assert forall|k: int| 0 <= k < segments(path).len() implies is_name(
            #[trigger] segments(path)[k],
        ) by {
            let w = segments(path)[k];
            let j = all.index_of(w);
            lemma_words(path, set, j);
            assert(segments(path).contains(w));
            if w.contains('/') {
                let i = w.index_of('/');
                assert(set.has(all[j][i]));
            }
        }
    }
}

/// The path that names make up has those names as its segments.
pub proof fn law_absolute_path_keeps_its_names(names: Seq<Seq<char>>)
    requires
        all_names(names),
    ensures
        words(absolute(names), CharSet::Only('/')) == names,
        segments(absolute(names)) == names,
        !has_parent(absolute(names)),
        absolute(names).len() > 0,
        absolute(names)[0] == '/',
    decreases names.len(),
{
    let set = CharSet::Only('/');
    reveal_strlit("/");
    assert("/"@ =~= seq!['/']);
    let path = absolute(names);
    if names.len() == 0 {
        assert(path =~= seq!['/']);
        assert(path.skip(1) =~= Seq::<char>::empty());
        assert(trim_start(path.skip(1), set) =~= Seq::<char>::empty());
        assert(trim_start(path, set) =~= Seq::<char>::empty());
        assert(words(path, set) =~= names);
    } else {
        let last = names.last();
        let init = names.drop_last();
        assert(is_name(names[names.len() - 1]));
        assert forall|k: int| 0 <= k < init.len() implies is_name(#[trigger] init[k]) by {
            assert(init[k] == names[k]);
        }
        law_absolute_path_keeps_its_names(init);
        assert forall|j: int| 0 <= j < last.len() implies !set.has(#[trigger] last[j]) by {
            if last[j] == '/' {
                assert(last.contains('/'));
            }
        }
        lemma_one_word(last, set);
        let tail = seq!['/'] + last;
        if names.len() == 1 {
            assert(path =~= tail);
            assert(words(path, set) =~= names);
        } else {
            assert(path =~= absolute(init) + tail);
            assert(tail[0] == '/');
            lemma_words_append(absolute(init), tail, set);
            assert(words(path, set) =~= names);
        }
    }
    lemma_names_are_kept(names);
}

/// A request path in its normal form is absolute and leads to no parent, and its segments are
/// those of the path that was asked for, with the escapes resolved.
pub proof fn law_normal_path_is_safe(path: Seq<char>)
    ensures
        normal_path(path) matches Ok(normal) ==> {
            &&& normal.len() > 0 && normal[0] == '/'
            &&& !has_parent(normal)
            &&& all_names(words(normal, CharSet::Only('/')))
            &&& percent_text(path) matches Ok(decoded) && segments(normal) == segments(decoded)
        },
{
    if let Ok(normal) = normal_path(path) {
        let decoded = percent_text(path)->Ok_0;
        lemma_segments_are_names(decoded);
        law_absolute_path_keeps_its_names(segments(decoded));
    }
}

/// A request path that leads to a parent is refused, however its dots are escaped.
pub proof fn law_parent_paths_are_refused(path: Seq<char>, decoded: Seq<char>)
    requires
        percent_text(path) == Ok::<Seq<char>, Seq<char>>(decoded),
        has_parent(decoded),
    ensures
        normal_path(path) is Err,
{
}

/// The path lies below the root: names below it lead there.
pub open spec fn is_below(root: Seq<char>, path: Seq<char>) -> bool {
    exists|names: Seq<Seq<char>>| #[trigger]
        push_names(root, names) == path && all_names(names)
}

proof fn lemma_push_names_prefix(root: Seq<char>, names: Seq<Seq<char>>)
    ensures
        starts_with(push_names(root, names), root),
    decreases names.len(),
{
    if names.len() > 0 {
        lemma_push_names_prefix(root, names.drop_last());
        let shorter = push_names(root, names.drop_last());
        let path = push_names(root, names);
        assert(path.take(shorter.len() as int) =~= shorter);
        assert(path.take(root.len() as int) =~= shorter.take(root.len() as int));
    } else {
        assert(root.take(root.len() as int) =~= root);
    }
}

/// Where a relative path can be joined to a root, the result lies below the root, and starts with
/// it.
pub proof fn law_joined_path_stays_below(root: Seq<char>, relative: Seq<char>)
    ensures
        join_below(root, relative) matches Ok(path) ==> is_below(root, path) && starts_with(
            path,
            root,
        ),
{
    if let Ok(path) = join_below(root, relative) {
        lemma_segments_are_names(relative);
        lemma_push_names_prefix(root, segments(relative));
        assert(push_names(root, segments(relative)) == path);
    }
}

/// The name that an upload is stored under names something below a directory, and holds letters,
/// digits, dots, dashes and underscores alone.
pub proof fn law_safe_name_is_a_name(name: Seq<char>)
    ensures
        safe_name(name) matches Some(safe) ==> is_name(safe) && forall|i: int|
            0 <= i < safe.len() ==> safe_char(#[trigger] safe[i]) == safe[i],
{
    if let Some(safe) = safe_name(name) {
        let base = trim(base_name(trim(name)));
        reveal_strlit(".");
        reveal_strlit("..");
        if safe.contains('/') {
            let i = safe.index_of('/');
            assert(safe[i] == safe_char(base[i]));
        }
        if safe == "."@ {
            assert(safe[0] == safe_char(base[0]));
            assert(base =~= "."@);
        }
        if safe == ".."@ {
            assert(safe[0] == safe_char(base[0]));
            assert(safe[1] == safe_char(base[1]));
            assert(base =~= ".."@);
        }
        assert forall|i: int| 0 <= i < safe.len() implies safe_char(#[trigger] safe[i])
            == safe[i] by {
            assert(safe[i] == safe_char(base[i]));
        }
    }
}

/// The character has a meaning in HTML.
pub open spec fn is_markup(c: char) -> bool {
    c == '<' || c == '>' || c == '"' || c == '\''
}

/// Escaped text holds no character that HTML reads as markup.
pub proof fn law_escaped_text_has_no_markup(s: Seq<char>)
    ensures
        forall|i: int| 0 <= i < html_text(s).len() ==> !is_markup(#[trigger] html_text(s)[i]),
    decreases s.len(),
{
    if s.len() > 0 {
        law_escaped_text_has_no_markup(s.drop_last());
        reveal_strlit("&amp;");
        reveal_strlit("&lt;");
        reveal_strlit("&gt;");
        reveal_strlit("&quot;");
        reveal_strlit("&#39;");
        let front = html_text(s.drop_last());
        let back = html_char(s.last());
        assert forall|i: int| 0 <= i < html_text(s).len() implies !is_markup(
            #[trigger] html_text(s)[i],
        ) by {
            if i < front.len() {
                assert(html_text(s)[i] == front[i]);
            } else {
                assert(html_text(s)[i] == back[i - front.len()]);
            }
        }
    }
}

} // verus!
