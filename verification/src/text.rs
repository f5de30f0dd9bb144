//! Text as sequences of characters: searching, trimming, splitting and joining.
//!
//! The specification functions describe a text as a `Seq<char>`. The executable functions work
//! on slices of characters, so that a piece of a text is a borrowed subslice.

use vstd::prelude::*;
use vstd::slice::slice_subrange;
use vstd::utf8::{
    decode_utf8, encode_utf8, encode_utf8_decode_utf8, encode_utf8_valid_utf8, valid_utf8,
};

verus! {

/// The characters with the Unicode property White_Space.
pub open spec fn is_space(c: char) -> bool {
    ||| 0x09 <= c as u32 <= 0x0d
    ||| c as u32 == 0x20
    ||| c as u32 == 0x85
    ||| c as u32 == 0xa0
    ||| c as u32 == 0x1680
    ||| 0x2000 <= c as u32 <= 0x200a
    ||| c as u32 == 0x2028
    ||| c as u32 == 0x2029
    ||| c as u32 == 0x202f
    ||| c as u32 == 0x205f
    ||| c as u32 == 0x3000
}

/// A set of characters at which a text is trimmed or split.
#[derive(Clone, Copy)]
pub enum CharSet {
    /// Unicode white space.
    Space,
    /// One character.
    Only(char),
}

impl CharSet {
    pub open spec fn has(self, c: char) -> bool {
        match self {
            CharSet::Space => is_space(c),
            CharSet::Only(x) => c == x,
        }
    }

    /// Whether the set holds `c`.
    pub fn contains(self, c: char) -> (r: bool)
        ensures
            r == self.has(c),
    {
        match self {
            CharSet::Space => {
                let n: u32 = c as u32;
                (0x09 <= n && n <= 0x0d) || n == 0x20 || n == 0x85 || n == 0xa0 || n == 0x1680 || (
                0x2000 <= n && n <= 0x200a) || n == 0x2028 || n == 0x2029 || n == 0x202f || n
                    == 0x205f || n == 0x3000
            },
            CharSet::Only(x) => c == x,
        }
    }
}

/// The texts of a list of slices.
pub open spec fn texts(v: Seq<&[char]>) -> Seq<Seq<char>> {
    v.map_values(|p: &[char]| p@)
}

/// The texts of a list of strings.
pub open spec fn strings(v: Seq<String>) -> Seq<Seq<char>> {
    v.map_values(|p: String| p@)
}

pub broadcast proof fn lemma_texts_push(v: Seq<&[char]>, p: &[char])
    ensures
        #[trigger] texts(v.push(p)) == texts(v).push(p@),
{
    assert(texts(v.push(p)) =~= texts(v).push(p@));
}

pub broadcast proof fn lemma_strings_push(v: Seq<String>, p: String)
    ensures
        #[trigger] strings(v.push(p)) == strings(v).push(p@),
{
    assert(strings(v.push(p)) =~= strings(v).push(p@));
}

/// The characters of a string.
pub fn to_chars(s: &str) -> (v: Vec<char>)
    ensures
        v@ == s@,
{
    let mut v: Vec<char> = Vec::new();
    for c in it: s.chars()
        invariant
            v@ == it.seq().take(it.index() as int),
            it.seq() == s@,
    {
        v.push(c);
    }
    v
}

/// `String::push` appends one character.
pub assume_specification[ String::push ](s: &mut String, c: char)
    ensures
        final(s)@ == old(s)@.push(c),
;

/// Appends characters to a string.
pub fn push_chars(out: &mut String, s: &[char])
    ensures
        final(out)@ == old(out)@ + s@,
{
    let mut i: usize = 0;
    while i < s.len()
        invariant
            0 <= i <= s@.len(),
            out@ == old(out)@ + s@.take(i as int),
        decreases s.len() - i,
    {
        out.push(s[i]);
        i = i + 1;
    }
    assert(s@.take(s@.len() as int) == s@);
}

/// The string made of the given characters.
pub fn to_text(s: &[char]) -> (r: String)
    ensures
        r@ == s@,
{
    let mut out = String::new();
    push_chars(&mut out, s);
    out
}

/// `std::str::from_utf8`: succeeds exactly on well-formed UTF-8, and gives the text that the
/// bytes encode.
#[verifier::external_body]
pub(crate) fn utf8_text(bytes: &[u8]) -> (r: Option<String>)
    ensures
        match r {
            Some(s) => valid_utf8(bytes@) && s@ == decode_utf8(bytes@),
            None => !valid_utf8(bytes@),
        },
{
    std::str::from_utf8(bytes).ok().map(String::from)
}

/// What `String::from_utf8_lossy` makes of bytes: ill-formed parts are replaced.
pub uninterp spec fn lossy_text(bytes: Seq<u8>) -> Seq<char>;

/// `String::from_utf8_lossy`: on well-formed UTF-8 the text that the bytes encode, on other bytes
/// a text that depends on the bytes alone.
#[verifier::external_body]
fn utf8_lossy(bytes: &[u8]) -> (r: String)
    ensures
        r@ == lossy_text(bytes@),
        valid_utf8(bytes@) ==> r@ == decode_utf8(bytes@),
{
    String::from_utf8_lossy(bytes).into_owned()
}

/// The text that bytes are shown as: what they encode where they are well-formed UTF-8, else a text
/// in which the ill-formed parts are replaced.
pub open spec fn shown_text(bytes: Seq<u8>) -> Seq<char> {
    if valid_utf8(bytes) {
        decode_utf8(bytes)
    } else {
        lossy_text(bytes)
    }
}

/// The text that bytes are shown as.
pub fn show_bytes(bytes: &[u8]) -> (r: String)
    ensures
        r@ == shown_text(bytes@),
{
    utf8_lossy(bytes)
}

/// The bytes of a text are shown as the text.
pub proof fn law_text_is_shown_as_written(text: Seq<char>)
    ensures
        shown_text(encode_utf8(text)) == text,
{
    encode_utf8_valid_utf8(text);
    encode_utf8_decode_utf8(text);
}

/// Whether two byte slices are equal.
pub fn same_bytes(a: &[u8], b: &[u8]) -> (r: bool)
    ensures
        r == (a@ == b@),
{
    if a.len() != b.len() {
        return false;
    }
    let mut i: usize = 0;
    while i < a.len()
        invariant
            0 <= i <= a@.len(),
            a@.len() == b@.len(),
            forall|k: int| 0 <= k < i ==> a@[k] == b@[k],
        decreases a.len() - i,
    {
        if a[i] != b[i] {
            return false;
        }
        i = i + 1;
    }
    assert(a@ =~= b@);
    true
}

/// Whether two strings are equal.
pub fn same_str(a: &str, b: &str) -> (r: bool)
    ensures
        r == (a@ == b@),
{
    let r = same_bytes(a.as_bytes(), b.as_bytes());
    proof {
        encode_utf8_decode_utf8(a@);
        encode_utf8_decode_utf8(b@);
    }
    r
}

/// Whether two slices of characters are equal.
pub fn same(a: &[char], b: &[char]) -> (r: bool)
    ensures
        r == (a@ == b@),
{
    if a.len() != b.len() {
        return false;
    }
    let mut i: usize = 0;
    while i < a.len()
        invariant
            0 <= i <= a@.len(),
            a@.len() == b@.len(),
            forall|k: int| 0 <= k < i ==> a@[k] == b@[k],
        decreases a.len() - i,
    {
        if a[i] != b[i] {
            return false;
        }
        i = i + 1;
    }
    assert(a@ =~= b@);
    true
}

/// Whether characters spell the given string.
pub fn is_text(a: &[char], b: &str) -> (r: bool)
    ensures
        r == (a@ == b@),
{
    let b = to_chars(b);
    same(a, b.as_slice())
}

// Searching

/// `n` occurs in `h` at index `i`.
pub open spec fn occurs_at<T>(h: Seq<T>, n: Seq<T>, i: int) -> bool {
    0 <= i && i + n.len() <= h.len() && h.subrange(i, i + n.len()) == n
}

/// The first index from `i` on at which `n` occurs in `h`.
pub open spec fn find_from<T>(h: Seq<T>, n: Seq<T>, i: int) -> Option<int>
    decreases h.len() - i + 1,
{
    if i < 0 || i + n.len() > h.len() {
        None
    } else if occurs_at(h, n, i) {
        Some(i)
    } else {
        find_from(h, n, i + 1)
    }
}

/// The first index at which `n` occurs in `h`.
pub open spec fn find<T>(h: Seq<T>, n: Seq<T>) -> Option<int> {
    find_from(h, n, 0)
}

/// What `find_from` returns: the least index not below `i` at which `n` occurs.
pub proof fn lemma_find_from<T>(h: Seq<T>, n: Seq<T>, i: int)
    requires
        0 <= i,
    ensures
        match find_from(h, n, i) {
            Some(k) => i <= k && occurs_at(h, n, k) && forall|j: int|
                i <= j < k ==> !occurs_at(h, n, j),
            None => forall|j: int| i <= j ==> !occurs_at(h, n, j),
        },
    decreases h.len() - i + 1,
{
    if i + n.len() > h.len() {
    } else if occurs_at(h, n, i) {
    } else {
        lemma_find_from(h, n, i + 1);
    }
}

/// The first occurrence of `n` in `h` is determined by the least index at which it occurs.
pub proof fn lemma_find_is<T>(h: Seq<T>, n: Seq<T>, k: int)
    requires
        occurs_at(h, n, k),
        forall|j: int| 0 <= j < k ==> !occurs_at(h, n, j),
    ensures
        find(h, n) == Some(k),
{
    lemma_find_from(h, n, 0);
}

/// Appending to a text does not move the first occurrence of a pattern.
pub proof fn lemma_find_extend<T>(h: Seq<T>, e: Seq<T>, n: Seq<T>)
    ensures
        find(h, n) is Some ==> find(h + e, n) == find(h, n),
{
    if let Some(k) = find(h, n) {
        lemma_find_from(h, n, 0);
        assert((h + e).subrange(k, k + n.len()) =~= h.subrange(k, k + n.len()));
        assert forall|j: int| 0 <= j < k implies !occurs_at(h + e, n, j) by {
            assert(!occurs_at(h, n, j));
            assert((h + e).subrange(j, j + n.len()) =~= h.subrange(j, j + n.len()));
        }
        lemma_find_is(h + e, n, k);
    }
}

/// The first position of `needle` in `haystack`.
pub fn find_text(haystack: &[char], needle: &[char]) -> (r: Option<usize>)
    ensures
        match r {
            Some(k) => find(haystack@, needle@) == Some(k as int),
            None => find(haystack@, needle@) is None,
        },
{
    let mut i: usize = 0;
    while needle.len() <= haystack.len() && i <= haystack.len() - needle.len()
        invariant
            0 <= i,
            needle@.len() <= haystack@.len() ==> i <= haystack@.len() - needle@.len() + 1,
            find(haystack@, needle@) == find_from(haystack@, needle@, i as int),
        decreases haystack.len() - i + 1,
    {
        if same(slice_subrange(haystack, i, i + needle.len()), needle) {
            return Some(i);
        }
        if i == haystack.len() - needle.len() {
            assert(find_from(haystack@, needle@, i + 1) is None);
            return None;
        }
        i = i + 1;
    }
    None
}

/// The index of the first member of `set` in `s` from `i` on, or the length.
pub open spec fn first_from(s: Seq<char>, set: CharSet, i: int) -> int
    decreases s.len() - i,
{
    if i < 0 || i >= s.len() {
        s.len() as int
    } else if set.has(s[i]) {
        i
    } else {
        first_from(s, set, i + 1)
    }
}

/// The index of the first member of `set` in `s`, or the length of `s` where there is none.
pub open spec fn first(s: Seq<char>, set: CharSet) -> int {
    first_from(s, set, 0)
}

/// What `first_from` returns: the least index not below `i` of a member of `set`.
pub proof fn lemma_first_from(s: Seq<char>, set: CharSet, i: int)
    requires
        0 <= i <= s.len(),
    ensures
        i <= first_from(s, set, i) <= s.len(),
        forall|k: int| i <= k < first_from(s, set, i) ==> !set.has(#[trigger] s[k]),
        first_from(s, set, i) < s.len() ==> set.has(s[first_from(s, set, i)]),
    decreases s.len() - i,
{
    if i < s.len() && !set.has(s[i]) {
        lemma_first_from(s, set, i + 1);
    }
}

/// The index of the first member of `set`, or the length.
pub fn first_index(s: &[char], set: CharSet) -> (r: usize)
    ensures
        r == first(s@, set),
        0 <= r <= s@.len(),
{
    let mut i: usize = 0;
    while i < s.len()
        invariant
            0 <= i <= s@.len(),
            first(s@, set) == first_from(s@, set, i as int),
        decreases s.len() - i,
    {
        if set.contains(s[i]) {
            return i;
        }
        i = i + 1;
    }
    i
}

// Trimming

/// `s` without its leading members of `set`.
pub open spec fn trim_start(s: Seq<char>, set: CharSet) -> Seq<char>
    decreases s.len(),
{
    if s.len() > 0 && set.has(s[0]) {
        trim_start(s.skip(1), set)
    } else {
        s
    }
}

/// `s` without its trailing members of `set`.
pub open spec fn trim_end(s: Seq<char>, set: CharSet) -> Seq<char>
    decreases s.len(),
{
    if s.len() > 0 && set.has(s.last()) {
        trim_end(s.drop_last(), set)
    } else {
        s
    }
}

/// `s` without its leading and trailing members of `set`.
pub open spec fn trim_both(s: Seq<char>, set: CharSet) -> Seq<char> {
    trim_end(trim_start(s, set), set)
}

/// `s` without leading and trailing white space.
pub open spec fn trim(s: Seq<char>) -> Seq<char> {
    trim_both(s, CharSet::Space)
}

/// Drops the leading members of `set`.
pub fn trim_start_slice<'a>(s: &'a [char], set: CharSet) -> (r: &'a [char])
    ensures
        r@ == trim_start(s@, set),
{
    let mut i: usize = 0;
    assert(s@.skip(0) == s@);
    while i < s.len() && set.contains(s[i])
        invariant
            0 <= i <= s@.len(),
            trim_start(s@, set) == trim_start(s@.skip(i as int), set),
        decreases s.len() - i,
    {
        assert(s@.skip(i as int).skip(1) == s@.skip(i + 1));
        i = i + 1;
    }
    slice_subrange(s, i, s.len())
}

/// Drops the trailing members of `set`.
pub fn trim_end_slice<'a>(s: &'a [char], set: CharSet) -> (r: &'a [char])
    ensures
        r@ == trim_end(s@, set),
{
    let mut n: usize = s.len();
    assert(s@.take(n as int) == s@);
    while n > 0 && set.contains(s[n - 1])
        invariant
            0 <= n <= s@.len(),
            trim_end(s@, set) == trim_end(s@.take(n as int), set),
        decreases n,
    {
        assert(s@.take(n as int).drop_last() == s@.take(n - 1));
        n = n - 1;
    }
    slice_subrange(s, 0, n)
}

/// Drops the leading and trailing members of `set`.
pub fn trim_both_slice<'a>(s: &'a [char], set: CharSet) -> (r: &'a [char])
    ensures
        r@ == trim_both(s@, set),
{
    trim_end_slice(trim_start_slice(s, set), set)
}

/// Drops leading and trailing white space.
pub fn trim_slice<'a>(s: &'a [char]) -> (r: &'a [char])
    ensures
        r@ == trim(s@),
{
    trim_both_slice(s, CharSet::Space)
}

pub proof fn lemma_trim_start(s: Seq<char>, set: CharSet)
    ensures
        trim_start(s, set).len() <= s.len(),
        trim_start(s, set) == s.skip(s.len() - trim_start(s, set).len()),
        trim_start(s, set).len() > 0 ==> !set.has(trim_start(s, set)[0]),
    decreases s.len(),
{
    if s.len() > 0 && set.has(s[0]) {
        lemma_trim_start(s.skip(1), set);
    }
}

// Prefixes and suffixes

pub open spec fn starts_with(s: Seq<char>, p: Seq<char>) -> bool {
    p.len() <= s.len() && s.take(p.len() as int) == p
}

pub open spec fn ends_with(s: Seq<char>, p: Seq<char>) -> bool {
    p.len() <= s.len() && s.skip(s.len() - p.len()) == p
}

/// Whether `s` starts with `p`.
pub fn has_prefix(s: &[char], p: &[char]) -> (r: bool)
    ensures
        r == starts_with(s@, p@),
{
    p.len() <= s.len() && same(slice_subrange(s, 0, p.len()), p)
}

/// Whether `s` ends with `p`.
pub fn has_suffix(s: &[char], p: &[char]) -> (r: bool)
    ensures
        r == ends_with(s@, p@),
{
    p.len() <= s.len() && same(slice_subrange(s, s.len() - p.len(), s.len()), p)
}

/// Whether `s` starts with the given string.
pub fn has_prefix_str(s: &[char], p: &str) -> (r: bool)
    ensures
        r == starts_with(s@, p@),
{
    let p = to_chars(p);
    has_prefix(s, p.as_slice())
}

// Splitting and joining

/// The pieces of `s` between the members of `set`; one more piece than there are members.
pub open spec fn split(s: Seq<char>, set: CharSet) -> Seq<Seq<char>>
    decreases s.len(),
{
    let i = first(s, set);
    if i < 0 || i >= s.len() {
        seq![s]
    } else {
        seq![s.take(i)] + split(s.skip(i + 1), set)
    }
}

/// Splits at every member of `set`.
pub fn split_slice<'a>(s: &'a [char], set: CharSet) -> (r: Vec<&'a [char]>)
    ensures
        texts(r@) == split(s@, set),
        r@.len() > 0,
{
    let mut out: Vec<&'a [char]> = Vec::new();
    let mut rest: &'a [char] = s;
    assert(texts(out@) =~= Seq::<Seq<char>>::empty());
    loop
        invariant
            split(s@, set) == texts(out@) + split(rest@, set),
        decreases rest@.len(),
    {
        let i = first_index(rest, set);
        if i >= rest.len() {
            proof {
                lemma_texts_push(out@, rest);
            }
            out.push(rest);
            assert(texts(out@).len() == out@.len());
            return out;
        }
        let piece = slice_subrange(rest, 0, i);
        proof {
            lemma_texts_push(out@, piece);
        }
        out.push(piece);
        rest = slice_subrange(rest, i + 1, rest.len());
    }
}

/// The maximal runs of characters of `s` outside `set`.
pub open spec fn words(s: Seq<char>, set: CharSet) -> Seq<Seq<char>>
    decreases s.len(),
{
    let t = trim_start(s, set);
    let i = first(t, set);
    if t.len() == 0 || t.len() > s.len() || i <= 0 || i > t.len() {
        Seq::empty()
    } else {
        seq![t.take(i)] + words(t.skip(i), set)
    }
}

/// Splits into the maximal runs of characters outside `set`.
pub fn words_slice<'a>(s: &'a [char], set: CharSet) -> (r: Vec<&'a [char]>)
    ensures
        texts(r@) == words(s@, set),
        r@.len() == words(s@, set).len(),
{
    let mut out: Vec<&'a [char]> = Vec::new();
    let mut rest: &'a [char] = s;
    assert(texts(out@) =~= Seq::<Seq<char>>::empty());
    loop
        invariant
            words(s@, set) == texts(out@) + words(rest@, set),
        decreases rest@.len(),
    {
        let t = trim_start_slice(rest, set);
        proof {
            lemma_trim_start(rest@, set);
            lemma_first_from(t@, set, 0);
        }
        if t.len() == 0 {
            assert(texts(out@).len() == out@.len());
            return out;
        }
        let i = first_index(t, set);
        let piece = slice_subrange(t, 0, i);
        proof {
            lemma_texts_push(out@, piece);
        }
        out.push(piece);
        rest = slice_subrange(t, i, t.len());
    }
}

/// Every word is a nonempty text without members of `set`.
pub proof fn lemma_words(s: Seq<char>, set: CharSet, k: int)
    requires
        0 <= k < words(s, set).len(),
    ensures
        words(s, set)[k].len() > 0,
        forall|j: int| 0 <= j < words(s, set)[k].len() ==> !set.has(#[trigger] words(s, set)[k][j]),
    decreases s.len(),
{
    let t = trim_start(s, set);
    lemma_trim_start(s, set);
    lemma_first_from(t, set, 0);
    let i = first(t, set);
    if k > 0 {
        lemma_words(t.skip(i), set, k - 1);
    }
}

proof fn lemma_trim_start_append(a: Seq<char>, b: Seq<char>, set: CharSet)
    ensures
        trim_start(a, set).len() > 0 ==> trim_start(a + b, set) == trim_start(a, set) + b,
        trim_start(a, set).len() == 0 ==> trim_start(a + b, set) == trim_start(b, set),
    decreases a.len(),
{
    if a.len() == 0 {
        assert(a + b =~= b);
    } else if set.has(a[0]) {
        assert((a + b).skip(1) =~= a.skip(1) + b);
        lemma_trim_start_append(a.skip(1), b, set);
    }
}

/// The words of a text do not depend on leading members of `set`.
pub proof fn lemma_words_trim(s: Seq<char>, set: CharSet)
    ensures
        words(trim_start(s, set), set) == words(s, set),
{
    let t = trim_start(s, set);
    lemma_trim_start(s, set);
    lemma_first_from(t, set, 0);
    assert(trim_start(t, set) == t);
}

/// The index of the first member of `set`, known to be `k`.
pub proof fn lemma_first_is(s: Seq<char>, set: CharSet, i: int, k: int)
    requires
        0 <= i <= k <= s.len(),
        forall|j: int| i <= j < k ==> !set.has(#[trigger] s[j]),
        k < s.len() ==> set.has(s[k]),
    ensures
        first_from(s, set, i) == k,
    decreases k - i,
{
    if i < k {
        lemma_first_is(s, set, i + 1, k);
    }
}

/// A text that is cut before a member of `set` has the words of the one part and then those of the
/// other.
pub proof fn lemma_words_append(a: Seq<char>, b: Seq<char>, set: CharSet)
    requires
        b.len() > 0 ==> set.has(b[0]),
    ensures
        words(a + b, set) == words(a, set) + words(b, set),
    decreases a.len(),
{
    let t = trim_start(a, set);
    lemma_trim_start(a, set);
    lemma_trim_start_append(a, b, set);
    if t.len() == 0 {
        lemma_words_trim(a + b, set);
        lemma_words_trim(b, set);
        assert(words(a, set) =~= Seq::<Seq<char>>::empty());
        assert(words(a, set) + words(b, set) =~= words(b, set));
    } else {
        let i = first(t, set);
        lemma_first_from(t, set, 0);
        let u = t + b;
        assert forall|j: int| 0 <= j < i implies !set.has(#[trigger] u[j]) by {
            assert(u[j] == t[j]);
        }
        lemma_first_is(u, set, 0, i);
        assert(i > 0) by {
            assert(!set.has(t[0]));
        }
        assert(u.take(i) =~= t.take(i));
        assert(u.skip(i) =~= t.skip(i) + b);
        lemma_words_append(t.skip(i), b, set);
        assert(u.len() == (a + b).len() - (a.len() - t.len()));
        assert(words(a + b, set) == seq![u.take(i)] + words(u.skip(i), set));
        assert(words(a, set) == seq![t.take(i)] + words(t.skip(i), set));
        assert(seq![t.take(i)] + (words(t.skip(i), set) + words(b, set)) =~= seq![t.take(i)]
            + words(t.skip(i), set) + words(b, set));
    }
}

/// A text without members of `set`, and a separator before it or not, is one word.
pub proof fn lemma_one_word(w: Seq<char>, set: CharSet)
    requires
        w.len() > 0,
        forall|j: int| 0 <= j < w.len() ==> !set.has(#[trigger] w[j]),
    ensures
        words(w, set) == seq![w],
        forall|c: char| set.has(c) ==> words(#[trigger] (seq![c] + w), set) == seq![w],
{
    lemma_first_is(w, set, 0, w.len() as int);
    assert(!set.has(w[0]));
    assert(trim_start(w, set) == w);
    assert(w.take(w.len() as int) =~= w);
    assert(w.skip(w.len() as int) =~= Seq::<char>::empty());
    assert(words(Seq::<char>::empty(), set) =~= Seq::<Seq<char>>::empty());
    assert(words(w, set) =~= seq![w]);
    assert forall|c: char| set.has(c) implies words(#[trigger] (seq![c] + w), set) == seq![w] by {
        let s = seq![c] + w;
        assert(s[0] == c);
        assert(s.skip(1) =~= w);
        lemma_words_trim(s, set);
        assert(trim_start(s, set) == trim_start(w, set));
    }
}

/// The part of `s` before the first `c`, or all of `s`.
pub open spec fn before(s: Seq<char>, c: char) -> Seq<char> {
    s.take(first(s, CharSet::Only(c)))
}

/// The part before the first `c`.
pub fn before_slice<'a>(s: &'a [char], c: char) -> (r: &'a [char])
    ensures
        r@ == before(s@, c),
{
    let i = first_index(s, CharSet::Only(c));
    slice_subrange(s, 0, i)
}

/// The parts of `s` before and after the first `c`.
pub open spec fn split_once(s: Seq<char>, c: char) -> Option<(Seq<char>, Seq<char>)> {
    let i = first(s, CharSet::Only(c));
    if i < s.len() {
        Some((s.take(i), s.skip(i + 1)))
    } else {
        None
    }
}

/// Splits at the first `c`.
pub fn split_once_slice<'a>(s: &'a [char], c: char) -> (r: Option<(&'a [char], &'a [char])>)
    ensures
        match r {
            Some((a, b)) => split_once(s@, c) == Some((a@, b@)),
            None => split_once(s@, c) is None,
        },
{
    let i = first_index(s, CharSet::Only(c));
    if i < s.len() {
        Some((slice_subrange(s, 0, i), slice_subrange(s, i + 1, s.len())))
    } else {
        None
    }
}

/// The pieces of `s` between the occurrences of the separator `sep`.
pub open spec fn split_by(s: Seq<char>, sep: Seq<char>) -> Seq<Seq<char>>
    decreases s.len(),
{
    match find(s, sep) {
        Some(i) => if sep.len() == 0 || i < 0 || i + sep.len() > s.len() {
            seq![s]
        } else {
            seq![s.take(i)] + split_by(s.skip(i + sep.len()), sep)
        },
        None => seq![s],
    }
}

/// Splits at every occurrence of a separator.
pub fn split_by_slice<'a>(s: &'a [char], sep: &[char]) -> (r: Vec<&'a [char]>)
    requires
        sep@.len() > 0,
    ensures
        texts(r@) == split_by(s@, sep@),
        r@.len() > 0,
{
    let mut out: Vec<&'a [char]> = Vec::new();
    let mut rest: &'a [char] = s;
    assert(texts(out@) =~= Seq::<Seq<char>>::empty());
    loop
        invariant
            sep@.len() > 0,
            split_by(s@, sep@) == texts(out@) + split_by(rest@, sep@),
        decreases rest@.len(),
    {
        match find_text(rest, sep) {
            None => {
                proof {
                    lemma_texts_push(out@, rest);
                }
                out.push(rest);
                assert(texts(out@).len() == out@.len());
                return out;
            },
            Some(i) => {
                proof {
                    lemma_find_from(rest@, sep@, 0);
                    assert(i + sep@.len() <= rest@.len());
                }
                let end: usize = rest.len();
                let piece = slice_subrange(rest, 0, i);
                proof {
                    lemma_texts_push(out@, piece);
                }
                out.push(piece);
                rest = slice_subrange(rest, i + sep.len(), end);
            },
        }
    }
}

/// A line without the carriage return before its line feed.
pub open spec fn without_cr(s: Seq<char>) -> Seq<char> {
    if s.len() > 0 && s.last() == '\r' {
        s.drop_last()
    } else {
        s
    }
}

/// The lines of `s`. A line ends with a line feed, or a carriage return and a line feed; the last
/// one may lack it.
pub open spec fn lines(s: Seq<char>) -> Seq<Seq<char>>
    decreases s.len(),
{
    let i = first(s, CharSet::Only('\n'));
    if s.len() == 0 {
        Seq::empty()
    } else if i < 0 || i >= s.len() {
        seq![s]
    } else {
        seq![without_cr(s.take(i))] + lines(s.skip(i + 1))
    }
}

/// Splits into lines.
pub fn lines_slice<'a>(s: &'a [char]) -> (r: Vec<&'a [char]>)
    ensures
        texts(r@) == lines(s@),
        r@.len() == lines(s@).len(),
{
    let mut out: Vec<&'a [char]> = Vec::new();
    let mut rest: &'a [char] = s;
    assert(texts(out@) =~= Seq::<Seq<char>>::empty());
    loop
        invariant
            lines(s@) == texts(out@) + lines(rest@),
        decreases rest@.len(),
    {
        if rest.len() == 0 {
            assert(texts(out@).len() == out@.len());
            return out;
        }
        let i = first_index(rest, CharSet::Only('\n'));
        if i >= rest.len() {
            proof {
                lemma_texts_push(out@, rest);
            }
            out.push(rest);
            assert(texts(out@).len() == out@.len());
            return out;
        }
        let line = slice_subrange(rest, 0, i);
        let line = if i > 0 && line[i - 1] == '\r' {
            slice_subrange(line, 0, i - 1)
        } else {
            line
        };
        assert(line@ == without_cr(rest@.take(i as int)));
        proof {
            lemma_texts_push(out@, line);
        }
        out.push(line);
        rest = slice_subrange(rest, i + 1, rest.len());
    }
}

/// The parts, with the separator between neighbours.
pub open spec fn join(parts: Seq<Seq<char>>, sep: Seq<char>) -> Seq<char>
    decreases parts.len(),
{
    if parts.len() == 0 {
        Seq::empty()
    } else if parts.len() == 1 {
        parts[0]
    } else {
        join(parts.drop_last(), sep) + sep + parts.last()
    }
}

/// Joined parts are the first of them joined, a separator, and the others joined.
pub proof fn lemma_join_cut(parts: Seq<Seq<char>>, sep: Seq<char>, n: int)
    requires
        0 < n < parts.len(),
    ensures
        join(parts, sep) == join(parts.take(n), sep) + sep + join(parts.skip(n), sep),
    decreases parts.len(),
{
    let init = parts.drop_last();
    if n == parts.len() - 1 {
        assert(parts.take(n) =~= init);
        assert(parts.skip(n) =~= seq![parts.last()]);
    } else {
        lemma_join_cut(init, sep, n);
        assert(init.take(n) =~= parts.take(n));
        assert(init.skip(n) =~= parts.skip(n).drop_last());
        assert(join(parts, sep) =~= join(parts.take(n), sep) + sep + join(parts.skip(n), sep));
    }
}

/// Joins pieces with a separator.
pub fn join_slices(parts: &[&[char]], sep: &str) -> (r: Vec<char>)
    ensures
        r@ == join(texts(parts@), sep@),
{
    let sep_chars = to_chars(sep);
    let mut out: Vec<char> = Vec::new();
    let mut i: usize = 0;
    while i < parts.len()
        invariant
            0 <= i <= parts@.len(),
            sep_chars@ == sep@,
            out@ == join(texts(parts@).take(i as int), sep@),
        decreases parts.len() - i,
    {
        assert(texts(parts@).take(i + 1).drop_last() =~= texts(parts@).take(i as int));
        if i > 0 {
            out.extend_from_slice(sep_chars.as_slice());
        }
        out.extend_from_slice(parts[i]);
        i = i + 1;
    }
    assert(texts(parts@).take(parts@.len() as int) =~= texts(parts@));
    out
}

/// Joins strings with a separator.
pub fn join_strings(parts: &[String], sep: &str) -> (r: String)
    ensures
        r@ == join(strings(parts@), sep@),
{
    let mut out = String::new();
    let mut i: usize = 0;
    while i < parts.len()
        invariant
            0 <= i <= parts@.len(),
            out@ == join(strings(parts@).take(i as int), sep@),
        decreases parts.len() - i,
    {
        assert(strings(parts@).take(i + 1).drop_last() =~= strings(parts@).take(i as int));
        if i > 0 {
            out.append(sep);
        }
        out.append(parts[i].as_str());
        i = i + 1;
    }
    assert(strings(parts@).take(parts@.len() as int) =~= strings(parts@));
    out
}

// ASCII case

/// The lower case of an ASCII letter; other characters are kept.
pub open spec fn lower_char(c: char) -> char {
    if 'A' <= c <= 'Z' {
        (c as u32 + 32) as char
    } else {
        c
    }
}

/// The upper case of an ASCII letter; other characters are kept.
pub open spec fn upper_char(c: char) -> char {
    if 'a' <= c <= 'z' {
        (c as u32 - 32) as char
    } else {
        c
    }
}

pub open spec fn lower(s: Seq<char>) -> Seq<char> {
    s.map_values(|c: char| lower_char(c))
}

pub open spec fn upper(s: Seq<char>) -> Seq<char> {
    s.map_values(|c: char| upper_char(c))
}

/// Equality up to the case of ASCII letters.
pub open spec fn same_ignoring_case(a: Seq<char>, b: Seq<char>) -> bool {
    lower(a) == lower(b)
}

/// Lowering a second time changes nothing.
pub proof fn lemma_lower_twice(s: Seq<char>)
    ensures
        lower(lower(s)) == lower(s),
{
    assert forall|i: int| 0 <= i < s.len() implies #[trigger] lower(lower(s))[i] == lower(s)[i] by {
        assert(lower_char(lower_char(s[i])) == lower_char(s[i]));
    }
    assert(lower(lower(s)) =~= lower(s));
}

/// Lowers ASCII letters.
pub fn lower_slice(s: &[char]) -> (r: Vec<char>)
    ensures
        r@ == lower(s@),
{
    let mut out: Vec<char> = Vec::new();
    let mut i: usize = 0;
    while i < s.len()
        invariant
            0 <= i <= s@.len(),
            out@ == lower(s@.take(i as int)),
        decreases s.len() - i,
    {
        let c = s[i];
        let d = if 'A' <= c && c <= 'Z' {
            ((c as u8) + 32) as char
        } else {
            c
        };
        out.push(d);
        i = i + 1;
        assert(out@ =~= lower(s@.take(i as int)));
    }
    assert(s@.take(s@.len() as int) == s@);
    out
}

/// Raises ASCII letters.
pub fn upper_slice(s: &[char]) -> (r: Vec<char>)
    ensures
        r@ == upper(s@),
{
    let mut out: Vec<char> = Vec::new();
    let mut i: usize = 0;
    while i < s.len()
        invariant
            0 <= i <= s@.len(),
            out@ == upper(s@.take(i as int)),
        decreases s.len() - i,
    {
        let c = s[i];
        let d = if 'a' <= c && c <= 'z' {
            ((c as u8) - 32) as char
        } else {
            c
        };
        out.push(d);
        i = i + 1;
        assert(out@ =~= upper(s@.take(i as int)));
    }
    assert(s@.take(s@.len() as int) == s@);
    out
}

/// Compares up to the case of ASCII letters.
pub fn matches_ignoring_case(a: &[char], b: &str) -> (r: bool)
    ensures
        r == same_ignoring_case(a@, b@),
{
    let b = to_chars(b);
    let x = lower_slice(a);
    let y = lower_slice(b.as_slice());
    same(x.as_slice(), y.as_slice())
}

} // verus!
