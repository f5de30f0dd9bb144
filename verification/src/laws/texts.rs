//! Texts and numbers.

use crate::number::{
    decimal, digit_value, digits, digits_value, hex_value, lemma_digits_round_trip, number,
};
use crate::text::{
    before, ends_with, find, first, is_space, join, lemma_find_from, lemma_first_from,
    lemma_first_is, lemma_join_cut, lemma_trim_start, lines, lower, lower_char, occurs_at,
    same_ignoring_case, split, split_by, split_once, starts_with, trim, trim_both, trim_end,
    trim_start, upper, upper_char, CharSet,
};
use vstd::prelude::*;

verus! {

/// White space is the space, the tabs, the line and page ends, and the blanks of other scripts; no
/// visible character of ASCII is.
pub proof fn law_white_space(c: char)
    ensures
        is_space(c) <==> (c == ' ' || c == '\t' || c == '\n' || c == '\u{b}' || c == '\u{c}' || c
            == '\r' || c == '\u{85}' || c == '\u{a0}' || c == '\u{1680}' || '\u{2000}' <= c
            <= '\u{200a}' || c == '\u{2028}' || c == '\u{2029}' || c == '\u{202f}' || c
            == '\u{205f}' || c == '\u{3000}'),
        '!' <= c <= '~' ==> !is_space(c),
{
}

/// The letters of ASCII come in pairs, 32 apart, and lowering and raising lead from one to the
/// other; every other character stays.
pub proof fn law_letter_case(c: char)
    ensures
        'A' <= c <= 'Z' ==> lower_char(c) as u32 == c as u32 + 32 && upper_char(c) == c,
        'a' <= c <= 'z' ==> upper_char(c) as u32 == c as u32 - 32 && lower_char(c) == c,
        !('A' <= c <= 'Z') && !('a' <= c <= 'z') ==> lower_char(c) == c && upper_char(c) == c,
{
}

/// A text keeps its length and each of its characters changes by itself when its case does.
pub proof fn law_case_of_a_text(s: Seq<char>, i: int)
    requires
        0 <= i < s.len(),
    ensures
        lower(s).len() == s.len() && lower(s)[i] == lower_char(s[i]),
        upper(s).len() == s.len() && upper(s)[i] == upper_char(s[i]),
{
}

/// Texts are the same up to case where they are as long as each other and differ at most in the
/// case of ASCII letters.
pub proof fn law_same_up_to_case(a: Seq<char>, b: Seq<char>)
    ensures
        same_ignoring_case(a, b) <==> (a.len() == b.len() && forall|i: int|
            0 <= i < a.len() ==> a[i] == b[i] || ('A' <= #[trigger] a[i] <= 'Z' && b[i] as u32
                == a[i] as u32 + 32) || ('a' <= a[i] <= 'z' && b[i] as u32 == a[i] as u32 - 32)),
{
    if same_ignoring_case(a, b) {
        assert(lower(a).len() == lower(b).len());
        assert forall|i: int| 0 <= i < a.len() implies a[i] == b[i] || ('A' <= #[trigger] a[i]
            <= 'Z' && b[i] as u32 == a[i] as u32 + 32) || ('a' <= a[i] <= 'z' && b[i] as u32
            == a[i] as u32 - 32) by {
            assert(lower(a)[i] == lower(b)[i]);
            assert(lower_char(a[i]) == lower_char(b[i]));
        }
    }
    if a.len() == b.len() && forall|i: int|
        0 <= i < a.len() ==> a[i] == b[i] || ('A' <= #[trigger] a[i] <= 'Z' && b[i] as u32
            == a[i] as u32 + 32) || ('a' <= a[i] <= 'z' && b[i] as u32 == a[i] as u32 - 32) {
        assert forall|i: int| 0 <= i < a.len() implies lower(a)[i] == lower(b)[i] by {
            assert(a[i] == a[i]);
            assert(lower_char(a[i]) == lower_char(b[i]));
        }
        assert(lower(a) =~= lower(b));
    }
}

/// A text starts with its front and ends with its back, and with nothing else of that length.
pub proof fn law_front_and_back(a: Seq<char>, b: Seq<char>, p: Seq<char>)
    ensures
        starts_with(a + b, a),
        ends_with(a + b, b),
        starts_with(a, p) <==> exists|rest: Seq<char>| a == #[trigger] (p + rest),
        ends_with(a, p) <==> exists|rest: Seq<char>| a == #[trigger] (rest + p),
{
    assert((a + b).take(a.len() as int) =~= a);
    assert((a + b).skip(a.len() as int) =~= b);
    if starts_with(a, p) {
        assert(a =~= p + a.skip(p.len() as int));
    }
    if ends_with(a, p) {
        assert(a =~= a.take(a.len() - p.len()) + p);
    }
    if exists|rest: Seq<char>| a == #[trigger] (p + rest) {
        let rest = choose|rest: Seq<char>| a == #[trigger] (p + rest);
        assert(a.take(p.len() as int) =~= p);
    }
    if exists|rest: Seq<char>| a == #[trigger] (rest + p) {
        let rest = choose|rest: Seq<char>| a == #[trigger] (rest + p);
        assert(a.skip(a.len() - p.len()) =~= p);
    }
}

/// A search gives the first place at which the text stands, and nothing only where it stands
/// nowhere.
pub proof fn law_search_gives_the_first(h: Seq<char>, n: Seq<char>)
    ensures
        match find(h, n) {
            Some(k) => 0 <= k <= h.len() - n.len() && h == h.take(k) + n + h.skip(k + n.len())
                && forall|j: int, rest: Seq<char>| 0 <= j < k ==> h != #[trigger] (h.take(j) + n + rest),
            None => forall|front: Seq<char>, rest: Seq<char>| h != #[trigger] (front + n + rest),
        },
{
    lemma_find_from(h, n, 0);
    match find(h, n) {
        Some(k) => {
            assert(h.subrange(k, k + n.len()) == n);
            assert(h =~= h.take(k) + n + h.skip(k + n.len()));
            assert forall|j: int, rest: Seq<char>| 0 <= j < k implies h != #[trigger] (h.take(j) + n
                + rest) by {
                if h == h.take(j) + n + rest {
                    assert(h.subrange(j, j + n.len()) =~= n);
                    assert(occurs_at(h, n, j));
                }
            }
        },
        None => {
            assert forall|front: Seq<char>, rest: Seq<char>| h != #[trigger] (front + n + rest) by {
                if h == front + n + rest {
                    let j = front.len() as int;
                    assert(h.subrange(j, j + n.len()) =~= n);
                    assert(occurs_at(h, n, j));
                }
            }
        },
    }
}

/// A text is cut at the first occurrence of a character, which belongs to neither part.
pub proof fn law_cut_at_a_character(a: Seq<char>, b: Seq<char>, c: char)
    requires
        !a.contains(c),
    ensures
        split_once(a + seq![c] + b, c) == Some((a, b)),
        before(a + seq![c] + b, c) == a,
        split_once(a, c) is None,
        before(a, c) == a,
        split(a, CharSet::Only(c)) == seq![a],
        split(a + seq![c] + b, CharSet::Only(c)) == seq![a] + split(b, CharSet::Only(c)),
{
    let s = a + seq![c] + b;
    let set = CharSet::Only(c);
    let n = a.len() as int;
    assert forall|j: int| 0 <= j < n implies !set.has(#[trigger] a[j]) by {
        if a[j] == c {
            assert(a.contains(c));
        }
    }
    assert forall|j: int| 0 <= j < n implies !set.has(#[trigger] s[j]) by {
        assert(s[j] == a[j]);
    }
    lemma_first_is(a, set, 0, n);
    assert(s[n] == c);
    lemma_first_is(s, set, 0, n);
    assert(s.take(n) =~= a);
    assert(s.skip(n + 1) =~= b);
    assert(a.take(n) =~= a);
}

/// The pieces between separators make up the text again, and hold no separator.
pub proof fn law_pieces_make_up_the_text(s: Seq<char>, c: char)
    ensures
        join(split(s, CharSet::Only(c)), seq![c]) == s,
        forall|k: int|
            0 <= k < split(s, CharSet::Only(c)).len() ==> !(#[trigger] split(
                s,
                CharSet::Only(c),
            )[k]).contains(c),
        split(s, CharSet::Only(c)).len() > 0,
    decreases s.len(),
{
    let set = CharSet::Only(c);
    let i = first(s, set);
    lemma_first_from(s, set, 0);
    let all = split(s, set);
    let front = s.take(i);
    if front.contains(c) {
        let j = front.index_of(c);
        assert(set.has(s[j]));
    }
    if i < s.len() {
        let rest = s.skip(i + 1);
        law_pieces_make_up_the_text(rest, c);
        let later = split(rest, set);
        lemma_join_cut(all, seq![c], 1);
        assert(all.take(1) =~= seq![front]);
        assert(all.skip(1) =~= later);
        assert(s =~= front + seq![c] + rest);
        assert forall|k: int| 0 <= k < all.len() implies !(#[trigger] all[k]).contains(c) by {
            if k > 0 {
                assert(all[k] == later[k - 1]);
            }
        }
    } else {
        assert(front =~= s);
        assert(all =~= seq![s]);
    }
}

/// Trimming takes away the white space at both ends, all of it, and nothing else.
pub proof fn law_trimmed_text(s: Seq<char>)
    ensures
        exists|a: int, b: int|
            0 <= a <= b <= s.len() && trim(s) == #[trigger] s.subrange(a, b) && (forall|i: int|
                0 <= i < a || b <= i < s.len() ==> is_space(#[trigger] s[i])) && (a < b
                ==> !is_space(s[a]) && !is_space(s[b - 1])),
{
    let (a, b) = lemma_trimmed(s, CharSet::Space);
    assert(trim(s) == s.subrange(a, b));
}

proof fn lemma_trimmed(s: Seq<char>, set: CharSet) -> (r: (int, int))
    ensures
        0 <= r.0 <= r.1 <= s.len(),
        trim_both(s, set) == s.subrange(r.0, r.1),
        forall|i: int| 0 <= i < r.0 || r.1 <= i < s.len() ==> set.has(#[trigger] s[i]),
        r.0 < r.1 ==> !set.has(s[r.0]) && !set.has(s[r.1 - 1]),
{
    let t = trim_start(s, set);
    lemma_trim_start(s, set);
    lemma_trimmed_front(s, set);
    let a = s.len() - t.len();
    lemma_trimmed_end(t, set);
    let u = trim_end(t, set);
    let b = a + u.len();
    assert(u =~= s.subrange(a, b));
    assert forall|i: int| 0 <= i < a || b <= i < s.len() implies set.has(#[trigger] s[i]) by {
        if i >= b {
            assert(s[i] == t[i - a]);
        }
    }
    if u.len() > 0 {
        assert(u[0] == t[0]);
        assert(u[u.len() - 1] == s[b - 1]);
    }
    (a, b)
}

proof fn lemma_trimmed_front(s: Seq<char>, set: CharSet)
    ensures
        forall|i: int| 0 <= i < s.len() - trim_start(s, set).len() ==> set.has(#[trigger] s[i]),
    decreases s.len(),
{
    if s.len() > 0 && set.has(s[0]) {
        lemma_trimmed_front(s.skip(1), set);
        lemma_trim_start(s.skip(1), set);
        assert forall|i: int| 0 <= i < s.len() - trim_start(s, set).len() implies set.has(
            #[trigger] s[i],
        ) by {
            if i > 0 {
                assert(s[i] == s.skip(1)[i - 1]);
            }
        }
    }
}

proof fn lemma_trimmed_end(s: Seq<char>, set: CharSet)
    ensures
        trim_end(s, set).len() <= s.len(),
        trim_end(s, set) == s.take(trim_end(s, set).len() as int),
        forall|i: int| trim_end(s, set).len() <= i < s.len() ==> set.has(#[trigger] s[i]),
        trim_end(s, set).len() > 0 ==> !set.has(trim_end(s, set).last()),
    decreases s.len(),
{
    if s.len() > 0 && set.has(s.last()) {
        let t = s.drop_last();
        lemma_trimmed_end(t, set);
        let n = trim_end(s, set).len() as int;
        assert(s.take(n) =~= t.take(n));
        assert forall|i: int| n <= i < s.len() implies set.has(#[trigger] s[i]) by {
            if i < t.len() {
                assert(s[i] == t[i]);
            }
        }
    } else {
        assert(s.take(s.len() as int) =~= s);
    }
}

/// Quotes around a text are taken away with one call, and those inside it stay.
pub proof fn law_trimmed_of_a_character(s: Seq<char>, c: char)
    ensures
        exists|a: int, b: int|
            0 <= a <= b <= s.len() && trim_both(s, CharSet::Only(c)) == #[trigger] s.subrange(a, b)
                && (forall|i: int| 0 <= i < a || b <= i < s.len() ==> (#[trigger] s[i]) == c) && (a
                < b ==> s[a] != c && s[b - 1] != c),
        exists|b: int|
            0 <= b <= s.len() && trim_end(s, CharSet::Only(c)) == #[trigger] s.take(b) && (forall|
                i: int,
            |
                b <= i < s.len() ==> (#[trigger] s[i]) == c) && (b > 0 ==> s[b - 1] != c),
        exists|a: int|
            0 <= a <= s.len() && trim_start(s, CharSet::Only(c)) == #[trigger] s.skip(a) && (forall|
                i: int,
            |
                0 <= i < a ==> (#[trigger] s[i]) == c) && (a < s.len() ==> s[a] != c),
{
    let set = CharSet::Only(c);
    let (a, b) = lemma_trimmed(s, set);
    assert(trim_both(s, set) == s.subrange(a, b));
    assert forall|i: int| 0 <= i < a || b <= i < s.len() implies (#[trigger] s[i]) == c by {
        assert(set.has(s[i]));
    }
    lemma_trimmed_end(s, set);
    let e = trim_end(s, set).len() as int;
    assert(trim_end(s, set) == s.take(e));
    assert forall|i: int| e <= i < s.len() implies (#[trigger] s[i]) == c by {
        assert(set.has(s[i]));
    }
    if e > 0 {
        assert(s.take(e).last() == s[e - 1]);
    }
    lemma_trimmed_front(s, set);
    lemma_trim_start(s, set);
    let f = s.len() - trim_start(s, set).len();
    assert(trim_start(s, set) == s.skip(f));
    assert forall|i: int| 0 <= i < f implies (#[trigger] s[i]) == c by {
        assert(set.has(s[i]));
    }
    if f < s.len() {
        assert(s.skip(f)[0] == s[f]);
    }
}

/// Lines end in a line feed, with a carriage return before it or not; a last line without an end
/// counts too, and nothing follows a last line end.
pub proof fn law_lines_of_a_text(line: Seq<char>, rest: Seq<char>)
    requires
        !line.contains('\n'),
    ensures
        lines(line + "\n"@ + rest) == seq![
            if line.len() > 0 && line.last() == '\r' {
                line.drop_last()
            } else {
                line
            },
        ] + lines(rest),
        line.len() > 0 ==> lines(line) == seq![line],
        lines(Seq::<char>::empty()) == Seq::<Seq<char>>::empty(),
{
    reveal_strlit("\n");
    assert("\n"@ =~= seq!['\n']);
    let s = line + "\n"@ + rest;
    let set = CharSet::Only('\n');
    let n = line.len() as int;
    assert forall|j: int| 0 <= j < n implies !set.has(#[trigger] line[j]) by {
        if line[j] == '\n' {
            assert(line.contains('\n'));
        }
    }
    assert forall|j: int| 0 <= j < n implies !set.has(#[trigger] s[j]) by {
        assert(s[j] == line[j]);
    }
    lemma_first_is(line, set, 0, n);
    assert(s[n] == '\n');
    lemma_first_is(s, set, 0, n);
    assert(s.take(n) =~= line);
    assert(s.skip(n + 1) =~= rest);
}

/// A text is cut at every line end of the protocol: the front holds none, and the rest is cut in
/// the same way.
pub proof fn law_cut_at_a_separator(a: Seq<char>, sep: Seq<char>, b: Seq<char>)
    requires
        sep.len() > 0,
        find(a + sep + b, sep) == Some(a.len() as int),
    ensures
        split_by(a + sep + b, sep) == seq![a] + split_by(b, sep),
        find(a, sep) is None ==> split_by(a, sep) == seq![a],
{
    let s = a + sep + b;
    let n = a.len() as int;
    assert(s.take(n) =~= a);
    assert(s.skip(n + sep.len()) =~= b);
}

/// Joining puts the separator between neighbours and nowhere else.
pub proof fn law_joined_parts(a: Seq<Seq<char>>, b: Seq<Seq<char>>, x: Seq<char>, sep: Seq<char>)
    ensures
        join(Seq::<Seq<char>>::empty(), sep) == Seq::<char>::empty(),
        join(seq![x], sep) == x,
        a.len() > 0 && b.len() > 0 ==> join(a + b, sep) == join(a, sep) + sep + join(b, sep),
{
    if a.len() > 0 && b.len() > 0 {
        lemma_join_cut(a + b, sep, a.len() as int);
        assert((a + b).take(a.len() as int) =~= a);
        assert((a + b).skip(a.len() as int) =~= b);
    }
}

// Numbers

/// The digits have their usual values, in decimal and in hexadecimal, in either case.
pub proof fn law_digit_values(v: int, c: char)
    ensures
        0 <= v < 10 ==> hex_value((48 + v) as u8 as char) == Some(v),
        10 <= v < 16 ==> hex_value((87 + v) as u8 as char) == Some(v) && hex_value(
            (55 + v) as u8 as char,
        ) == Some(v),
        hex_value(c) is Some <==> ('0' <= c <= '9' || 'a' <= c <= 'f' || 'A' <= c <= 'F'),
        digit_value(c, 10) is Some <==> '0' <= c <= '9',
        hex_value(c) is Some ==> digit_value(c, 16) == hex_value(c),
        '0' <= c <= '9' ==> digit_value(c, 10) == hex_value(c),
{
}

/// A further digit makes the number ten times as large, or sixteen times, and adds its value; a
/// text with anything else in it is no number, nor is an empty one; a plus sign may stand in front.
pub proof fn law_numbers_are_positional(d: Seq<char>, c: char, radix: int, max: int)
    requires
        radix == 10 || radix == 16,
        d.len() > 0,
        d[0] != '+',
    ensures
        number(d.push(c), radix, max) == match (number(d, radix, max), digit_value(c, radix)) {
            (Some(v), Some(w)) => if v * radix + w <= max {
                Some(v * radix + w)
            } else {
                None
            },
            _ => None,
        },
        number(seq!['+'] + d, radix, max) == number(d, radix, max),
        number(Seq::<char>::empty(), radix, max) is None,
        number(seq!['+'], radix, max) is None,
        number(seq![c], radix, max) == match digit_value(c, radix) {
            Some(w) => if w <= max {
                Some(w)
            } else {
                None
            },
            None => None,
        },
{
    let e = d.push(c);
    assert(e.drop_last() =~= d);
    assert(e[0] == d[0]);
    lemma_value_range(d, radix);
    let p = seq!['+'] + d;
    assert(p.skip(1) =~= d);
    assert(p[0] == '+');
    let one = seq![c];
    assert(one.drop_last() =~= Seq::<char>::empty());
    assert(digits_value(Seq::<char>::empty(), radix) == Some(0int));
    assert(0 * radix == 0) by (nonlinear_arith);
    assert(seq!['+'].skip(1) =~= Seq::<char>::empty());
    if let (Some(v), Some(w)) = (digits_value(d, radix), digit_value(c, radix)) {
        assert(v * radix + w >= v) by (nonlinear_arith)
            requires
                v >= 0,
                radix >= 1,
                w >= 0,
        ;
    }
    if c == '+' {
        assert(one.skip(1) =~= Seq::<char>::empty());
    }
}

proof fn lemma_value_range(d: Seq<char>, radix: int)
    requires
        2 <= radix <= 16,
    ensures
        digits_value(d, radix) matches Some(v) ==> v >= 0,
    decreases d.len(),
{
    if d.len() > 0 {
        lemma_value_range(d.drop_last(), radix);
        if let (Some(v), Some(w)) = (
            digits_value(d.drop_last(), radix),
            digit_value(d.last(), radix),
        ) {
            assert(v * radix + w >= 0) by (nonlinear_arith)
                requires
                    v >= 0,
                    radix >= 2,
                    w >= 0,
            ;
        }
    }
}

/// The decimal text of a number is made of digits, has no zero in front of others, and reads as
/// the number, or as none where the number is too large; so does the hexadecimal text.
pub proof fn law_written_numbers(n: int, max: int)
    requires
        0 <= n,
    ensures
        forall|k: int| 0 <= k < decimal(n).len() ==> '0' <= #[trigger] decimal(n)[k] <= '9',
        decimal(n).len() > 0 && (decimal(n)[0] == '0' ==> n == 0 && decimal(n).len() == 1),
        number(decimal(n), 10, max) == (if n <= max {
            Some(n)
        } else {
            None
        }),
        number(digits(n, 16), 16, max) == (if n <= max {
            Some(n)
        } else {
            None
        }),
{
    lemma_digits_round_trip(n, 10);
    lemma_digits_round_trip(n, 16);
    lemma_decimal_digits(n);
}

proof fn lemma_decimal_digits(n: int)
    requires
        0 <= n,
    ensures
        decimal(n).len() > 0,
        forall|k: int| 0 <= k < decimal(n).len() ==> '0' <= #[trigger] decimal(n)[k] <= '9',
        decimal(n)[0] == '0' ==> n == 0 && decimal(n).len() == 1,
    decreases n,
{
    if n >= 10 {
        lemma_decimal_digits(n / 10);
        assert(decimal(n)[0] == decimal(n / 10)[0]);
    }
}

} // verus!
