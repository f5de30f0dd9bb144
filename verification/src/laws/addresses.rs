//! Addresses: as they are written in a configuration, and as they are shown.

use crate::addr::{
    addr_text, colon_parts, groups_of, groups_text, groups_value, hex_groups, ipv4_address,
    ipv4_text, ipv6_groups, ipv6_text, listen_addr, mixed_groups, octet, plain_number, zero_runs,
    zeros, ListenAddr,
};
use crate::laws::parameters::law_joined_pieces_are_cut_apart;
use crate::laws::texts::law_cut_at_a_character;
use crate::number::{decimal, digits, digits_value, lemma_digits_chars, lemma_digits_round_trip};
use crate::text::{
    find, join, lemma_find_from, lemma_find_is, occurs_at, split, split_once, CharSet,
};
use vstd::prelude::*;

verus! {

proof fn lemma_plain(n: int, radix: int, max: int)
    requires
        0 <= n,
        radix == 10 || radix == 16,
    ensures
        plain_number(digits(n, radix), radix, max) == (if n <= max {
            Some(n)
        } else {
            None
        }),
        forall|k: int|
            0 <= k < digits(n, radix).len() ==> ('0' <= #[trigger] digits(n, radix)[k] <= '9' || 'a'
                <= digits(n, radix)[k] <= 'f'),
        digits(n, radix).len() > 0,
{
    lemma_digits_round_trip(n, radix);
    lemma_digits_chars(n, radix);
}

/// The digits of a number hold none of the characters that stand between numbers.
proof fn lemma_no_mark(n: int, radix: int, c: char)
    requires
        0 <= n,
        radix == 10 || radix == 16,
        c == '.' || c == ':' || c == '[' || c == ']' || c == '%',
    ensures
        !digits(n, radix).contains(c),
{
    lemma_plain(n, radix, n);
    let d = digits(n, radix);
    if d.contains(c) {
        let k = d.index_of(c);
        assert('0' <= d[k] <= '9' || 'a' <= d[k] <= 'f');
    }
}

proof fn lemma_octet(n: int)
    requires
        0 <= n < 256,
    ensures
        octet(decimal(n)) == Some(n),
{
    lemma_plain(n, 10, 255);
    reveal_with_fuel(digits, 4);
    if n >= 10 {
        assert(decimal(n)[0] != '0');
    }
}

/// An octet is at most three digits without a leading zero, and at most 255.
pub proof fn law_octets(t: Seq<char>)
    ensures
        octet(t) matches Some(v) ==> 0 <= v <= 255 && digits_value(t, 10) == Some(v),
        octet(t) is Some <==> (1 <= t.len() <= 3 && (t.len() == 1 || t[0] != '0') && (digits_value(
            t,
            10,
        ) matches Some(v) && v <= 255)),
{
    if t.len() > 0 && digits_value(t, 10) is Some {
        crate::number::lemma_number_range(t, 10, digits_value(t, 10)->0);
        crate::number::lemma_digits_first(t, 10);
    }
}

/// The four octets of an address as they are written.
pub open spec fn octets_text(a: int, b: int, c: int, d: int) -> Seq<char> {
    decimal(a) + seq!['.'] + decimal(b) + seq!['.'] + decimal(c) + seq!['.'] + decimal(d)
}

proof fn lemma_octets(a: int, b: int, c: int, d: int)
    requires
        0 <= a < 256,
        0 <= b < 256,
        0 <= c < 256,
        0 <= d < 256,
    ensures
        ipv4_address(octets_text(a, b, c, d)) == Some(a * 16777216 + b * 65536 + c * 256 + d),
        !octets_text(a, b, c, d).contains(':'),
        !octets_text(a, b, c, d).contains(']'),
        !octets_text(a, b, c, d).contains('%'),
        octets_text(a, b, c, d).len() > 0,
{
    let parts = seq![decimal(a), decimal(b), decimal(c), decimal(d)];
    lemma_octet(a);
    lemma_octet(b);
    lemma_octet(c);
    lemma_octet(d);
    lemma_no_mark(a, 10, '.');
    lemma_no_mark(b, 10, '.');
    lemma_no_mark(c, 10, '.');
    lemma_no_mark(d, 10, '.');
    law_joined_pieces_are_cut_apart(parts, '.');
    let p3 = parts.drop_last();
    let p2 = p3.drop_last();
    let p1 = p2.drop_last();
    assert(p1 =~= seq![decimal(a)]);
    assert(join(p1, seq!['.']) == decimal(a));
    assert(p2.last() == decimal(b) && p3.last() == decimal(c) && parts.last() == decimal(d));
    assert(join(p2, seq!['.']) == decimal(a) + seq!['.'] + decimal(b));
    assert(join(p3, seq!['.']) == decimal(a) + seq!['.'] + decimal(b) + seq!['.'] + decimal(c));
    assert(join(parts, seq!['.']) == octets_text(a, b, c, d));
    lemma_octets_mark(a, b, c, d, ':');
    lemma_octets_mark(a, b, c, d, ']');
    lemma_octets_mark(a, b, c, d, '%');
    lemma_plain(a, 10, 255);
}

proof fn lemma_octets_mark(a: int, b: int, c: int, d: int, m: char)
    requires
        0 <= a < 256,
        0 <= b < 256,
        0 <= c < 256,
        0 <= d < 256,
        m == ':' || m == ']' || m == '%',
    ensures
        !octets_text(a, b, c, d).contains(m),
{
    lemma_no_mark(a, 10, m);
    lemma_no_mark(b, 10, m);
    lemma_no_mark(c, 10, m);
    lemma_no_mark(d, 10, m);
    lemma_no_mark_append(decimal(a), seq!['.'], m);
    lemma_no_mark_append(decimal(a) + seq!['.'], decimal(b), m);
    lemma_no_mark_append(decimal(a) + seq!['.'] + decimal(b), seq!['.'], m);
    lemma_no_mark_append(decimal(a) + seq!['.'] + decimal(b) + seq!['.'], decimal(c), m);
    lemma_no_mark_append(
        decimal(a) + seq!['.'] + decimal(b) + seq!['.'] + decimal(c),
        seq!['.'],
        m,
    );
    lemma_no_mark_append(
        decimal(a) + seq!['.'] + decimal(b) + seq!['.'] + decimal(c) + seq!['.'],
        decimal(d),
        m,
    );
}

proof fn lemma_no_mark_append(x: Seq<char>, y: Seq<char>, m: char)
    requires
        !x.contains(m),
        !y.contains(m),
    ensures
        !(x + y).contains(m),
{
    let s = x + y;
    if s.contains(m) {
        let i = s.index_of(m);
        if i < x.len() {
            assert(x[i] == m);
        } else {
            assert(y[i - x.len()] == m);
        }
    }
}

/// An address of four octets and a port is the one that the numbers make up.
pub proof fn law_listener_of_octets(a: u8, b: u8, c: u8, d: u8, port: u16)
    ensures
        listen_addr(
            octets_text(a as int, b as int, c as int, d as int) + seq![':'] + decimal(port as int),
        ) == Some(
            ListenAddr::V4 {
                ipv4: (a * 16777216 + b * 65536 + c * 256 + d) as u32,
                port,
            },
        ),
{
    lemma_octets(a as int, b as int, c as int, d as int);
    law_cut_at_a_character(
        octets_text(a as int, b as int, c as int, d as int),
        decimal(port as int),
        ':',
    );
    lemma_plain(port as int, 10, 0xffff);
}

// Version 6

/// Groups as they are written, each by itself.
pub open spec fn group_texts(g: Seq<u16>) -> Seq<Seq<char>> {
    g.map_values(|v: u16| digits(v as int, 16))
}

/// Groups with colons between them.
pub open spec fn with_colons(g: Seq<u16>) -> Seq<char> {
    join(group_texts(g), seq![':'])
}

proof fn lemma_groups_text(g: Seq<u16>)
    ensures
        groups_text(g) == with_colons(g),
    decreases g.len(),
{
    reveal_strlit(":");
    assert(":"@ =~= seq![':']);
    if g.len() > 1 {
        lemma_groups_text(g.drop_last());
        assert(group_texts(g).drop_last() =~= group_texts(g.drop_last()));
        assert(group_texts(g).last() == digits(g.last() as int, 16));
    }
}

proof fn lemma_hex_groups(g: Seq<u16>)
    ensures
        hex_groups(group_texts(g)) == Some(g),
    decreases g.len(),
{
    let t = group_texts(g);
    if g.len() == 0 {
        assert(hex_groups(t)->0 =~= g);
    } else {
        lemma_hex_groups(g.drop_last());
        assert(t.drop_last() =~= group_texts(g.drop_last()));
        let v = g.last();
        assert(t.last() == digits(v as int, 16));
        lemma_plain(v as int, 16, 0xffff);
        reveal_with_fuel(digits, 5);
        assert(t.last().len() <= 4);
        assert(g.drop_last().push(v) =~= g);
    }
}

proof fn lemma_colon_parts(g: Seq<u16>)
    ensures
        colon_parts(with_colons(g)) == group_texts(g),
        g.len() > 0 ==> with_colons(g).len() > 0 && with_colons(g)[0] != ':' && with_colons(
            g,
        )[with_colons(g).len() - 1] != ':',
        !with_colons(g).contains(']'),
        !with_colons(g).contains('%'),
        !with_colons(g).contains('.'),
        forall|i: int|
            0 <= i < with_colons(g).len() - 1 && with_colons(g)[i] == ':' ==> #[trigger] with_colons(
                g,
            )[i + 1] != ':',
    decreases g.len(),
{
    let t = group_texts(g);
    let s = with_colons(g);
    assert forall|k: int| 0 <= k < t.len() implies !(#[trigger] t[k]).contains(':') by {
        lemma_no_mark(g[k] as int, 16, ':');
    }
    if g.len() == 0 {
        assert(s =~= Seq::<char>::empty());
        assert(t =~= Seq::<Seq<char>>::empty());
    } else {
        law_joined_pieces_are_cut_apart(t, ':');
        let v = g[g.len() - 1];
        let last = digits(v as int, 16);
        lemma_plain(v as int, 16, 0xffff);
        lemma_no_mark(v as int, 16, ']');
        lemma_no_mark(v as int, 16, '%');
        lemma_no_mark(v as int, 16, '.');
        lemma_no_mark(v as int, 16, ':');
        assert(t.last() == last);
        if g.len() == 1 {
            assert(s == last);
            assert forall|i: int| 0 <= i < s.len() - 1 && s[i] == ':' implies #[trigger] s[i + 1]
                != ':' by {
                assert(last.contains(s[i]));
            }
        } else {
            let init = g.drop_last();
            lemma_colon_parts(init);
            assert(t.drop_last() =~= group_texts(init));
            let front = with_colons(init);
            assert(s =~= front + seq![':'] + last);
            lemma_no_mark_append(front, seq![':'], ']');
            lemma_no_mark_append(front + seq![':'], last, ']');
            lemma_no_mark_append(front, seq![':'], '%');
            lemma_no_mark_append(front + seq![':'], last, '%');
            lemma_no_mark_append(front, seq![':'], '.');
            lemma_no_mark_append(front + seq![':'], last, '.');
            assert(s[0] == front[0]);
            assert(s[s.len() - 1] == last[last.len() - 1]);
            assert forall|i: int| 0 <= i < s.len() - 1 && s[i] == ':' implies #[trigger] s[i + 1]
                != ':' by {
                if i + 1 < front.len() {
                    assert(s[i] == front[i] && s[i + 1] == front[i + 1]);
                } else if i + 1 == front.len() {
                    assert(s[i] == front[front.len() - 1]);
                } else {
                    assert(s[i + 1] == last[i - front.len()]);
                    assert(last.contains(last[i - front.len()]));
                }
            }
        }
    }
}

proof fn lemma_no_dots(t: Seq<char>)
    requires
        !t.contains('.'),
    ensures
        ipv4_address(t) is None,
{
    law_cut_at_a_character(t, Seq::empty(), '.');
}

proof fn lemma_mixed(g: Seq<u16>)
    ensures
        mixed_groups(group_texts(g)) == Some(g),
{
    lemma_hex_groups(g);
    if g.len() > 0 {
        let v = g[g.len() - 1];
        lemma_no_mark(v as int, 16, '.');
        assert(group_texts(g).last() == digits(v as int, 16));
        lemma_no_dots(group_texts(g).last());
    } else {
        assert(g =~= Seq::<u16>::empty());
    }
}

proof fn lemma_double_colon(s: Seq<char>)
    requires
        forall|i: int| 0 <= i < s.len() - 1 && s[i] == ':' ==> #[trigger] s[i + 1] != ':',
    ensures
        find(s, "::"@) is None,
{
    reveal_strlit("::");
    lemma_find_from(s, "::"@, 0);
    if let Some(k) = find(s, "::"@) {
        let part = s.subrange(k, k + 2);
        assert(part == "::"@);
        assert(part[0] == s[k] && part[1] == s[k + 1]);
    }
}

proof fn lemma_double_colon_at(left: Seq<char>, right: Seq<char>)
    requires
        forall|i: int|
            0 <= i < left.len() - 1 && left[i] == ':' ==> #[trigger] left[i + 1] != ':',
        left.len() > 0 ==> left[left.len() - 1] != ':',
    ensures
        find(left + "::"@ + right, "::"@) == Some(left.len() as int),
{
    reveal_strlit("::");
    let s = left + "::"@ + right;
    let n = left.len() as int;
    assert(s.subrange(n, n + 2) =~= "::"@);
    assert(occurs_at(s, "::"@, n));
    assert forall|j: int| 0 <= j < n implies !occurs_at(s, "::"@, j) by {
        if occurs_at(s, "::"@, j) {
            let part = s.subrange(j, j + 2);
            assert(part == "::"@);
            assert(part[0] == s[j] && part[1] == s[j + 1]);
            assert(s[j] == left[j]);
            if j + 1 < n {
                assert(s[j + 1] == left[j + 1]);
            }
        }
    }
    lemma_find_is(s, "::"@, n);
}

/// The eight groups of an address are those that are written, where all are; and where a double
/// colon stands between some, those before it and after it, with zeros between them.
pub proof fn law_groups_are_read_as_written(g: Seq<u16>, left: Seq<u16>, right: Seq<u16>)
    ensures
        g.len() == 8 ==> ipv6_groups(with_colons(g)) == Some(g),
        g.len() != 8 ==> ipv6_groups(with_colons(g)) is None,
        left.len() + right.len() <= 7 ==> (ipv6_groups(
            with_colons(left) + "::"@ + with_colons(right),
        ) matches Some(all) && all.len() == 8 && all.take(left.len() as int) == left && all.skip(
            8 - right.len(),
        ) == right && forall|i: int|
            left.len() <= i < 8 - right.len() ==> #[trigger] all[i] == 0),
        left.len() + right.len() > 7 ==> ipv6_groups(
            with_colons(left) + "::"@ + with_colons(right),
        ) is None,
{
    reveal_strlit("::");
    lemma_colon_parts(g);
    lemma_mixed(g);
    lemma_double_colon(with_colons(g));
    lemma_colon_parts(left);
    lemma_colon_parts(right);
    lemma_hex_groups(left);
    lemma_mixed(right);
    let l = with_colons(left);
    let r = with_colons(right);
    let s = l + "::"@ + r;
    if left.len() == 0 {
        assert(l =~= Seq::<char>::empty());
    }
    lemma_double_colon_at(l, r);
    assert(s.take(l.len() as int) =~= l);
    assert(s.skip(l.len() as int + 2) =~= r);
    if left.len() + right.len() <= 7 {
        let n = 8 - left.len() - right.len();
        lemma_zeros(n);
        let all = left + zeros(n) + right;
        assert(all.take(left.len() as int) =~= left);
        assert(all.skip(8 - right.len()) =~= right);
        assert forall|i: int| left.len() <= i < 8 - right.len() implies #[trigger] all[i] == 0 by {
            assert(all[i] == zeros(n)[i - left.len()]);
        }
    }
}

proof fn lemma_zeros(n: int)
    requires
        n >= 0,
    ensures
        zeros(n).len() == n,
        forall|i: int| 0 <= i < n ==> #[trigger] zeros(n)[i] == 0,
    decreases n,
{
    if n > 0 {
        lemma_zeros(n - 1);
    }
}

/// An address between brackets, with its scope where it has one, and a port.
pub open spec fn bracketed(inner: Seq<char>, scope: Option<u32>, port: u16) -> Seq<char> {
    seq!['['] + inner + (match scope {
        Some(s) => seq!['%'] + decimal(s as int),
        None => Seq::empty(),
    }) + seq![']', ':'] + decimal(port as int)
}

/// A version 6 address between brackets is the number that its groups make up, with the scope and
/// the port that follow it; without a scope that is zero.
pub proof fn law_listener_between_brackets(inner: Seq<char>, scope: Option<u32>, port: u16)
    requires
        !inner.contains(']'),
        !inner.contains('%'),
        ipv6_groups(inner) is Some,
        inner.len() > 0,
    ensures
        listen_addr(bracketed(inner, scope, port)) == Some(
            ListenAddr::V6 {
                ipv6: groups_value(ipv6_groups(inner)->0) as u128,
                scope: match scope {
                    Some(s) => s,
                    None => 0,
                },
                ipv6_port: port,
            },
        ),
{
    let tail = match scope {
        Some(s) => seq!['%'] + decimal(s as int),
        None => Seq::empty(),
    };
    let body = inner + tail;
    let p = decimal(port as int);
    let text = bracketed(inner, scope, port);
    let after = seq![':'] + p;
    assert(text.skip(1) =~= body + seq![']'] + after);
    if let Some(s) = scope {
        lemma_no_mark(s as int, 10, ']');
        lemma_no_mark_append(seq!['%'], decimal(s as int), ']');
        lemma_no_mark_append(inner, tail, ']');
        assert(body =~= inner + seq!['%'] + decimal(s as int));
        law_cut_at_a_character(inner, decimal(s as int), '%');
        lemma_plain(s as int, 10, 0xffff_ffff);
    } else {
        assert(body =~= inner);
        law_cut_at_a_character(inner, Seq::empty(), '%');
    }
    law_cut_at_a_character(body, after, ']');
    assert(after.skip(1) =~= p);
    lemma_plain(port as int, 10, 0xffff);
    lemma_bracket_is_no_octet(text);
}

proof fn lemma_bracket_is_no_octet(text: Seq<char>)
    requires
        text.len() > 0,
        text[0] == '[',
    ensures
        crate::addr::v4_listen(text) is None,
{
    let set = CharSet::Only(':');
    crate::text::lemma_first_from(text, set, 0);
    if let Some((host, port)) = split_once(text, ':') {
        if host.len() > 0 {
            assert(host[0] == '[');
        }
        let dot = CharSet::Only('.');
        let parts = split(host, dot);
        let i = crate::text::first(host, dot);
        crate::text::lemma_first_from(host, dot, 0);
        if host.len() == 0 {
            law_cut_at_a_character(host, Seq::empty(), '.');
        } else {
            assert(i > 0);
            assert(parts[0] == host.take(i));
            assert(parts[0][0] == '[');
            crate::number::lemma_digits_first(parts[0], 10);
        }
    }
}

// Addresses as they are shown

proof fn lemma_ipv4_text(ip: u32)
    ensures
        ipv4_text(ip as int) == octets_text(
            ip as int / 16777216,
            ip as int / 65536 % 256,
            ip as int / 256 % 256,
            ip as int % 256,
        ),
        0 <= ip as int / 16777216 < 256,
        (ip as int / 16777216) * 16777216 + (ip as int / 65536 % 256) * 65536 + (ip as int / 256
            % 256) * 256 + ip as int % 256 == ip,
{
    reveal_strlit(".");
    assert("."@ =~= seq!['.']);
}

spec fn power(n: int) -> int
    decreases n,
{
    if n <= 0 {
        1
    } else {
        65536 * power(n - 1)
    }
}

proof fn lemma_groups_of(v: int, n: int)
    requires
        0 <= n,
        0 <= v < power(n),
    ensures
        groups_of(v, n).len() == n,
        groups_value(groups_of(v, n)) == v,
    decreases n,
{
    if n > 0 {
        assert(v / 65536 < power(n - 1)) by (nonlinear_arith)
            requires
                0 <= v < 65536 * power(n - 1),
        ;
        lemma_groups_of(v / 65536, n - 1);
        let g = groups_of(v, n);
        assert(g.drop_last() =~= groups_of(v / 65536, n - 1));
    }
}

proof fn lemma_runs(g: Seq<u16>)
    ensures
        ({
            let r = zero_runs(g);
            &&& 0 <= r.start && 0 <= r.len && r.start + r.len <= g.len()
            &&& 0 <= r.last_len && (r.last_len > 0 ==> 0 <= r.last_start && r.last_start + r.last_len
                == g.len())
            &&& forall|i: int| r.start <= i < r.start + r.len ==> #[trigger] g[i] == 0
            &&& r.last_len > 0 ==> forall|i: int|
                r.last_start <= i < g.len() ==> #[trigger] g[i] == 0
        }),
    decreases g.len(),
{
    if g.len() > 0 {
        let init = g.drop_last();
        lemma_runs(init);
        let r = zero_runs(init);
        assert forall|i: int| 0 <= i < init.len() implies init[i] == g[i] by {}
        assert forall|i: int| r.start <= i < r.start + r.len implies #[trigger] g[i] == 0 by {
            assert(init[i] == 0);
        }
        if g.last() == 0 && r.last_len > 0 {
            assert forall|i: int| r.last_start <= i < g.len() implies #[trigger] g[i] == 0 by {
                if i < init.len() {
                    assert(init[i] == 0);
                }
            }
        }
    }
}

proof fn lemma_ffff()
    ensures
        digits(0xffff, 16) == seq!['f', 'f', 'f', 'f'],
{
    reveal_with_fuel(digits, 5);
    assert(digits(0xffff, 16) =~= seq!['f', 'f', 'f', 'f']);
}

proof fn lemma_mapped_parts(v4: Seq<char>, high: u16, low: u16)
    requires
        !v4.contains(':'),
        v4.len() > 0,
        ipv4_address(v4) == Some(high * 65536 + low),
    ensures
        mixed_groups(colon_parts(seq!['f', 'f', 'f', 'f'] + seq![':'] + v4)) == Some(
            seq![0xffffu16, high, low],
        ),
{
    let f = seq!['f', 'f', 'f', 'f'];
    lemma_ffff();
    law_cut_at_a_character(f, v4, ':');
    law_cut_at_a_character(v4, Seq::empty(), ':');
    let parts = colon_parts(f + seq![':'] + v4);
    assert(parts =~= seq![f, v4]);
    let front = parts.drop_last();
    let one = seq![0xffffu16];
    assert(front =~= group_texts(one));
    lemma_hex_groups(one);
    let v = high * 65536 + low;
    assert(v / 65536 == high && v % 65536 == low);
    assert(one.push(high).push(low) =~= seq![0xffffu16, high, low]);
}

proof fn lemma_mapped(g: Seq<u16>)
    requires
        g.len() == 8,
        g[0] == 0 && g[1] == 0 && g[2] == 0 && g[3] == 0 && g[4] == 0 && g[5] == 0xffff,
    ensures
        ipv6_groups(ipv6_text(g)) == Some(g),
        !ipv6_text(g).contains(']'),
        !ipv6_text(g).contains('%'),
        ipv6_text(g).len() > 0,
{
    reveal_strlit("::");
    reveal_strlit("::ffff:");
    let none = Seq::<u16>::empty();
    let ip = (g[6] * 65536 + g[7]) as u32;
    lemma_ipv4_text(ip);
    let a = ip as int / 16777216;
    let b = ip as int / 65536 % 256;
    let c = ip as int / 256 % 256;
    let d = ip as int % 256;
    lemma_octets(a, b, c, d);
    let v4 = octets_text(a, b, c, d);
    let s = ipv6_text(g);
    let r = seq!['f', 'f', 'f', 'f'] + seq![':'] + v4;
    let l = Seq::<char>::empty();
    assert(s == "::ffff:"@ + v4);
    assert(s =~= l + "::"@ + r);
    lemma_double_colon_at(l, r);
    assert(s.take(0) =~= l);
    assert(s.skip(2) =~= r);
    lemma_mapped_parts(v4, g[6], g[7]);
    let right = seq![0xffffu16, g[6], g[7]];
    assert(colon_parts(l) == Seq::<Seq<char>>::empty());
    assert(hex_groups(colon_parts(l)) == Some(none));
    lemma_zeros(5);
    assert(none + zeros(5) + right =~= g);
    lemma_no_mark_append("::ffff:"@, v4, ']');
    lemma_no_mark_append("::ffff:"@, v4, '%');
}

proof fn lemma_shown_groups(g: Seq<u16>)
    requires
        g.len() == 8,
    ensures
        ipv6_groups(ipv6_text(g)) == Some(g),
        !ipv6_text(g).contains(']'),
        !ipv6_text(g).contains('%'),
        ipv6_text(g).len() > 0,
{
    reveal_strlit("::");
    let none = Seq::<u16>::empty();
    if g[0] == 0 && g[1] == 0 && g[2] == 0 && g[3] == 0 && g[4] == 0 && g[5] == 0xffff {
        lemma_mapped(g);
    } else {
        let r = zero_runs(g);
        lemma_runs(g);
        lemma_groups_text(g);
        lemma_colon_parts(g);
        law_groups_are_read_as_written(g, none, none);
        if r.len > 1 {
            let left = g.take(r.start);
            let right = g.skip(r.start + r.len);
            lemma_groups_text(left);
            lemma_groups_text(right);
            lemma_colon_parts(left);
            lemma_colon_parts(right);
            law_groups_are_read_as_written(g, left, right);
            let all = ipv6_groups(with_colons(left) + "::"@ + with_colons(right))->0;
            assert(all =~= g) by {
                assert forall|i: int| 0 <= i < 8 implies all[i] == g[i] by {
                    if i < r.start {
                        assert(all.take(left.len() as int)[i] == left[i]);
                    } else if i >= r.start + r.len {
                        let k = i - r.start - r.len;
                        assert(all.skip(8 - right.len())[k] == right[k]);
                    } else {
                        assert(all[i] == 0);
                        assert(g[i] == 0);
                    }
                }
            }
            lemma_no_mark_append(with_colons(left), "::"@, ']');
            lemma_no_mark_append(with_colons(left) + "::"@, with_colons(right), ']');
            lemma_no_mark_append(with_colons(left), "::"@, '%');
            lemma_no_mark_append(with_colons(left) + "::"@, with_colons(right), '%');
        }
    }
}

/// The groups from `i` up to `j` are zero.
pub open spec fn is_zero_run(g: Seq<u16>, i: int, j: int) -> bool {
    0 <= i <= j <= g.len() && forall|k: int| i <= k < j ==> #[trigger] g[k] == 0
}

proof fn lemma_longest(g: Seq<u16>)
    ensures
        ({
            let r = zero_runs(g);
            &&& 0 <= r.last_len <= r.len
            &&& r.last_len <= g.len()
            &&& r.last_len > 0 ==> r.last_start == g.len() - r.last_len
            &&& r.last_len < g.len() ==> g[g.len() - r.last_len - 1] != 0
            &&& forall|i: int, j: int| #[trigger]
                is_zero_run(g, i, j) ==> j - i <= r.len && (j - i == r.len && r.len > 0 ==> r.start
                    <= i)
        }),
    decreases g.len(),
{
    if g.len() > 0 {
        let init = g.drop_last();
        let n = g.len() as int;
        lemma_longest(init);
        lemma_runs(init);
        let before = zero_runs(init);
        let r = zero_runs(g);
        assert forall|k: int| 0 <= k < init.len() implies init[k] == g[k] by {}
        if g.last() == 0 && r.last_len < n {
            assert(g[n - r.last_len - 1] == init[init.len() - before.last_len - 1]);
        }
        assert forall|i: int, j: int| #[trigger] is_zero_run(g, i, j) implies j - i <= r.len && (j
            - i == r.len && r.len > 0 ==> r.start <= i) by {
            if j < n {
                assert forall|k: int| i <= k < j implies #[trigger] init[k] == 0 by {
                    assert(g[k] == 0);
                }
                assert(is_zero_run(init, i, j));
            } else if i < j {
                assert(g[n - 1] == 0);
                if r.last_len < j - i {
                    assert(g[n - r.last_len - 1] == 0);
                }
            }
        }
    }
}

/// In an address that is shown, a double colon stands for the first of the longest runs of zero
/// groups, where that is of two groups or more; and no run is left out where it is not. An address
/// that stands for a version 4 one shows it.
pub proof fn law_longest_run_is_left_out(g: Seq<u16>, i: int, j: int)
    requires
        g.len() == 8,
        is_zero_run(g, i, j),
        forall|a: int, b: int| #[trigger] is_zero_run(g, a, b) ==> b - a <= j - i,
        forall|a: int, b: int| #[trigger] is_zero_run(g, a, b) && b - a == j - i ==> i <= a,
    ensures
        ({
            let mapped = g[0] == 0 && g[1] == 0 && g[2] == 0 && g[3] == 0 && g[4] == 0 && g[5]
                == 0xffff;
            &&& mapped ==> ipv6_text(g) == "::ffff:"@ + ipv4_text(g[6] * 65536 + g[7])
            &&& !mapped && j - i >= 2 ==> ipv6_text(g) == with_colons(g.take(i)) + "::"@
                + with_colons(g.skip(j))
            &&& !mapped && j - i < 2 ==> ipv6_text(g) == with_colons(g)
        }),
{
    let r = zero_runs(g);
    lemma_runs(g);
    lemma_longest(g);
    assert(is_zero_run(g, r.start, r.start + r.len));
    assert(r.len == j - i);
    if r.len > 0 {
        assert(r.start == i);
    }
    lemma_groups_text(g);
    lemma_groups_text(g.take(i));
    lemma_groups_text(g.skip(j));
}

/// An address is shown as it could be written: what is shown is read as the same address.
pub proof fn law_shown_address_leads_back(a: ListenAddr)
    ensures
        listen_addr(addr_text(a)) == Some(a),
{
    reveal_strlit(":");
    assert(":"@ =~= seq![':']);
    match a {
        ListenAddr::V4 { ipv4, port } => {
            lemma_ipv4_text(ipv4);
            law_listener_of_octets(
                (ipv4 as int / 16777216) as u8,
                (ipv4 as int / 65536 % 256) as u8,
                (ipv4 as int / 256 % 256) as u8,
                (ipv4 as int % 256) as u8,
                port,
            );
        },
        ListenAddr::V6 { ipv6, scope, ipv6_port } => {
            reveal_strlit("[");
            reveal_strlit("%");
            reveal_strlit("]:");
            reveal_with_fuel(power, 9);
            let g = groups_of(ipv6 as int, 8);
            assert(power(8) == 0x1_0000_0000_0000_0000_0000_0000_0000_0000);
            lemma_groups_of(ipv6 as int, 8);
            lemma_shown_groups(g);
            let scoped_by = if scope == 0 {
                None
            } else {
                Some(scope)
            };
            law_listener_between_brackets(ipv6_text(g), scoped_by, ipv6_port);
            assert("["@ =~= seq!['[']);
            assert("%"@ =~= seq!['%']);
            assert("]:"@ =~= seq![']', ':']);
            assert(addr_text(a) =~= bracketed(ipv6_text(g), scoped_by, ipv6_port));
        },
    }
}

} // verus!
