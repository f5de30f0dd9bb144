//! Socket addresses as they stand in `listen` directives.

use crate::number::{digits, digits_value, parse_number, push_number};
use crate::text::{
    find, find_text, first, lemma_find_from, split, split_once, split_once_slice, split_slice,
    texts, to_chars, CharSet,
};
use vstd::prelude::*;
use vstd::slice::slice_subrange;

verus! {

/// An address to listen on. The octets of a version 4 address, and the groups of a version 6
/// address, are the digits of one number, the first one most significant.
#[derive(Debug, Clone, Copy, PartialEq, Eq, Structural)]
pub enum ListenAddr {
    V4 { ipv4: u32, port: u16 },
    V6 { ipv6: u128, scope: u32, ipv6_port: u16 },
}

/// The number that unsigned digits denote, where it is at most `max`.
pub open spec fn plain_number(t: Seq<char>, radix: int, max: int) -> Option<int> {
    match digits_value(t, radix) {
        Some(v) => if t.len() > 0 && v <= max {
            Some(v)
        } else {
            None
        },
        None => None,
    }
}

/// One octet of a version 4 address: no leading zeros.
pub open spec fn octet(t: Seq<char>) -> Option<int> {
    if t.len() > 3 || (t.len() > 1 && t[0] == '0') {
        None
    } else {
        plain_number(t, 10, 255)
    }
}

/// A version 4 address: four octets.
pub open spec fn ipv4_address(t: Seq<char>) -> Option<int> {
    let parts = split(t, CharSet::Only('.'));
    if parts.len() != 4 {
        None
    } else {
        match (octet(parts[0]), octet(parts[1]), octet(parts[2]), octet(parts[3])) {
            (Some(a), Some(b), Some(c), Some(d)) => Some(
                a * 0x1000000 + b * 0x10000 + c * 0x100 + d,
            ),
            _ => None,
        }
    }
}

/// One group of a version 6 address: up to four hexadecimal digits.
pub open spec fn hex_group(t: Seq<char>) -> Option<u16> {
    if t.len() > 4 {
        None
    } else {
        match plain_number(t, 16, 0xffff) {
            Some(v) => Some(v as u16),
            None => None,
        }
    }
}

/// Groups of a version 6 address that are all hexadecimal.
pub open spec fn hex_groups(parts: Seq<Seq<char>>) -> Option<Seq<u16>>
    decreases parts.len(),
{
    if parts.len() == 0 {
        Some(Seq::empty())
    } else {
        match (hex_groups(parts.drop_last()), hex_group(parts.last())) {
            (Some(g), Some(v)) => Some(g.push(v)),
            _ => None,
        }
    }
}

/// Groups of a version 6 address, where the last may be a version 4 address for two groups.
pub open spec fn mixed_groups(parts: Seq<Seq<char>>) -> Option<Seq<u16>> {
    if parts.len() == 0 {
        Some(Seq::empty())
    } else {
        match (hex_groups(parts.drop_last()), ipv4_address(parts.last())) {
            (Some(g), Some(v)) => Some(g.push((v / 0x10000) as u16).push((v % 0x10000) as u16)),
            _ => hex_groups(parts),
        }
    }
}

/// The pieces of a text between colons; an empty text has none.
pub open spec fn colon_parts(t: Seq<char>) -> Seq<Seq<char>> {
    if t.len() == 0 {
        Seq::empty()
    } else {
        split(t, CharSet::Only(':'))
    }
}

/// A number of zero groups.
pub open spec fn zeros(n: int) -> Seq<u16>
    decreases n,
{
    if n <= 0 {
        Seq::empty()
    } else {
        zeros(n - 1).push(0)
    }
}

/// The eight groups of a version 6 address. A double colon stands for one or more zero groups.
pub open spec fn ipv6_groups(t: Seq<char>) -> Option<Seq<u16>> {
    match find(t, "::"@) {
        None => match mixed_groups(colon_parts(t)) {
            Some(g) => if g.len() == 8 {
                Some(g)
            } else {
                None
            },
            None => None,
        },
        Some(i) => match (
            hex_groups(colon_parts(t.take(i))),
            mixed_groups(colon_parts(t.skip(i + 2))),
        ) {
            (Some(a), Some(b)) => if a.len() + b.len() <= 7 {
                Some(a + zeros(8 - a.len() - b.len()) + b)
            } else {
                None
            },
            _ => None,
        },
    }
}

/// The number whose digits in base 65536 are the groups.
pub open spec fn groups_value(g: Seq<u16>) -> int
    decreases g.len(),
{
    if g.len() == 0 {
        0
    } else {
        groups_value(g.drop_last()) * 0x10000 + g.last()
    }
}

/// A version 4 address and a port.
pub open spec fn v4_listen(t: Seq<char>) -> Option<ListenAddr> {
    match split_once(t, ':') {
        None => None,
        Some((host, port)) => match (ipv4_address(host), plain_number(port, 10, 0xffff)) {
            (Some(ip), Some(p)) => Some(ListenAddr::V4 { ipv4: ip as u32, port: p as u16 }),
            _ => None,
        },
    }
}

/// A version 6 address and its scope, which is zero where none is given.
pub open spec fn scoped(t: Seq<char>) -> Option<(Seq<u16>, int)> {
    match split_once(t, '%') {
        None => match ipv6_groups(t) {
            Some(g) => Some((g, 0)),
            None => None,
        },
        Some((host, scope)) => match (ipv6_groups(host), plain_number(scope, 10, 0xffff_ffff)) {
            (Some(g), Some(s)) => Some((g, s)),
            _ => None,
        },
    }
}

/// A version 6 address in brackets and a port.
pub open spec fn v6_listen(t: Seq<char>) -> Option<ListenAddr> {
    if t.len() == 0 || t[0] != '[' {
        None
    } else {
        match split_once(t.skip(1), ']') {
            None => None,
            Some((inner, after)) => if after.len() == 0 || after[0] != ':' {
                None
            } else {
                match (scoped(inner), plain_number(after.skip(1), 10, 0xffff)) {
                    (Some((g, s)), Some(p)) => Some(
                        ListenAddr::V6 {
                            ipv6: groups_value(g) as u128,
                            scope: s as u32,
                            ipv6_port: p as u16,
                        },
                    ),
                    _ => None,
                }
            },
        }
    }
}

/// The socket address that a text denotes.
pub open spec fn listen_addr(t: Seq<char>) -> Option<ListenAddr> {
    match v4_listen(t) {
        Some(a) => Some(a),
        None => v6_listen(t),
    }
}

fn parse_plain(t: &[char], radix: usize, max: usize) -> (r: Option<usize>)
    requires
        2 <= radix <= 16,
    ensures
        match r {
            Some(v) => plain_number(t@, radix as int, max as int) == Some(v as int) && v <= max,
            None => plain_number(t@, radix as int, max as int) is None,
        },
{
    if t.len() > 0 && t[0] == '+' {
        proof {
            crate::number::lemma_digits_first(t@, radix as int);
        }
        return None;
    }
    parse_number(t, radix, max)
}

fn parse_octet(t: &[char]) -> (r: Option<u32>)
    ensures
        match r {
            Some(v) => octet(t@) == Some(v as int) && v <= 255,
            None => octet(t@) is None,
        },
{
    if t.len() > 3 || (t.len() > 1 && t[0] == '0') {
        return None;
    }
    match parse_plain(t, 10, 255) {
        Some(v) => Some(v as u32),
        None => None,
    }
}

fn parse_ipv4(t: &[char]) -> (r: Option<u32>)
    ensures
        match r {
            Some(v) => ipv4_address(t@) == Some(v as int),
            None => ipv4_address(t@) is None,
        },
{
    let parts = split_slice(t, CharSet::Only('.'));
    let ghost names = split(t@, CharSet::Only('.'));
    assert(texts(parts@).len() == parts@.len());
    if parts.len() != 4 {
        return None;
    }
    assert(names[0] == parts@[0]@ && names[1] == parts@[1]@ && names[2] == parts@[2]@ && names[3]
        == parts@[3]@);
    let a = parse_octet(parts[0]);
    let b = parse_octet(parts[1]);
    let c = parse_octet(parts[2]);
    let d = parse_octet(parts[3]);
    match (a, b, c, d) {
        (Some(a), Some(b), Some(c), Some(d)) => Some(a * 0x1000000 + b * 0x10000 + c * 0x100 + d),
        _ => None,
    }
}

fn parse_group(t: &[char]) -> (r: Option<u16>)
    ensures
        r == hex_group(t@),
{
    if t.len() > 4 {
        return None;
    }
    match parse_plain(t, 16, 0xffff) {
        Some(v) => Some(v as u16),
        None => None,
    }
}

/// Reads the first `n` parts as hexadecimal groups.
fn parse_hex_groups(parts: &[&[char]], n: usize) -> (r: Option<Vec<u16>>)
    requires
        n <= parts@.len(),
    ensures
        match r {
            Some(v) => hex_groups(texts(parts@).take(n as int)) == Some(v@) && v@.len() == n,
            None => hex_groups(texts(parts@).take(n as int)) is None,
        },
{
    let ghost names = texts(parts@);
    let mut out: Vec<u16> = Vec::new();
    let mut i: usize = 0;
    assert(hex_groups(names.take(0)) == Some(out@));
    while i < n
        invariant
            0 <= i <= n <= parts@.len(),
            names == texts(parts@),
            out@.len() == i,
            hex_groups(names.take(i as int)) == Some(out@),
        decreases n - i,
    {
        let ghost part = names.take(i + 1);
        assert(part.drop_last() =~= names.take(i as int));
        assert(part.last() == parts@[i as int]@);
        match parse_group(parts[i]) {
            Some(v) => {
                out.push(v);
            },
            None => {
                proof {
                    lemma_hex_groups_prefix(names.take(n as int), i + 1);
                    assert(names.take(n as int).take(i + 1) =~= part);
                }
                return None;
            },
        }
        i = i + 1;
    }
    Some(out)
}

proof fn lemma_hex_groups_prefix(parts: Seq<Seq<char>>, i: int)
    requires
        0 <= i <= parts.len(),
    ensures
        hex_groups(parts) is Some ==> hex_groups(parts.take(i)) is Some,
    decreases parts.len(),
{
    if i < parts.len() {
        lemma_hex_groups_prefix(parts.drop_last(), i);
        assert(parts.drop_last().take(i) =~= parts.take(i));
    } else {
        assert(parts.take(i) =~= parts);
    }
}

fn parse_mixed_groups(parts: &[&[char]]) -> (r: Option<Vec<u16>>)
    ensures
        match r {
            Some(v) => mixed_groups(texts(parts@)) == Some(v@),
            None => mixed_groups(texts(parts@)) is None,
        },
{
    let ghost names = texts(parts@);
    let n: usize = parts.len();
    assert(names.take(n as int) =~= names);
    if n == 0 {
        let out: Vec<u16> = Vec::new();
        assert(out@ =~= Seq::<u16>::empty());
        return Some(out);
    }
    assert(names.take(n - 1) =~= names.drop_last());
    assert(names.last() == parts@[n - 1]@);
    if let Some(mut out) = parse_hex_groups(parts, n - 1) {
        if let Some(v) = parse_ipv4(parts[n - 1]) {
            out.push((v / 0x10000) as u16);
            out.push((v % 0x10000) as u16);
            return Some(out);
        }
    }
    parse_hex_groups(parts, n)
}

fn colon_slices<'a>(t: &'a [char]) -> (r: Vec<&'a [char]>)
    ensures
        texts(r@) == colon_parts(t@),
{
    if t.len() == 0 {
        let out: Vec<&'a [char]> = Vec::new();
        assert(texts(out@) =~= Seq::<Seq<char>>::empty());
        out
    } else {
        split_slice(t, CharSet::Only(':'))
    }
}

fn parse_ipv6(t: &[char]) -> (r: Option<Vec<u16>>)
    ensures
        match r {
            Some(v) => ipv6_groups(t@) == Some(v@) && v@.len() == 8,
            None => ipv6_groups(t@) is None,
        },
{
    let total: usize = t.len();
    let double = to_chars("::");
    match find_text(t, double.as_slice()) {
        None => {
            let parts = colon_slices(t);
            match parse_mixed_groups(parts.as_slice()) {
                Some(g) => if g.len() == 8 {
                    Some(g)
                } else {
                    None
                },
                None => None,
            }
        },
        Some(i) => {
            proof {
                reveal_strlit("::");
                lemma_find_from(t@, "::"@, 0);
            }
            let head_parts = colon_slices(slice_subrange(t, 0, i));
            let tail_parts = colon_slices(slice_subrange(t, i + 2, total));
            let ghost head_texts = texts(head_parts@);
            assert(head_texts.take(head_parts@.len() as int) =~= head_texts);
            let head = parse_hex_groups(head_parts.as_slice(), head_parts.len());
            let tail = parse_mixed_groups(tail_parts.as_slice());
            match (head, tail) {
                (Some(mut a), Some(b)) => {
                    if a.len() > 7 || b.len() > 7 - a.len() {
                        return None;
                    }
                    let ghost first = a@;
                    let gap: usize = 8 - a.len() - b.len();
                    let mut k: usize = 0;
                    assert(first + zeros(0) =~= first);
                    while k < gap
                        invariant
                            0 <= k <= gap,
                            a@ == first + zeros(k as int),
                        decreases gap - k,
                    {
                        a.push(0);
                        k = k + 1;
                        assert(a@ =~= first + zeros(k as int));
                    }
                    proof {
                        lemma_zeros_len(gap as int);
                    }
                    let ghost middle = a@;
                    a.extend_from_slice(b.as_slice());
                    assert(a@ =~= middle + b@);
                    Some(a)
                },
                _ => None,
            }
        },
    }
}

proof fn lemma_zeros_len(n: int)
    requires
        0 <= n,
    ensures
        zeros(n).len() == n,
    decreases n,
{
    if n > 0 {
        lemma_zeros_len(n - 1);
    }
}

/// The number of values of `n` groups.
spec fn power(n: int) -> int
    decreases n,
{
    if n <= 0 {
        1
    } else {
        power(n - 1) * 0x10000
    }
}

proof fn lemma_power_mono(a: int, b: int)
    requires
        0 <= a <= b,
    ensures
        1 <= power(a) <= power(b),
    decreases b,
{
    if a < b {
        lemma_power_mono(a, b - 1);
    } else if a > 0 {
        lemma_power_mono(a - 1, b - 1);
    }
}

proof fn lemma_groups_value(g: Seq<u16>)
    ensures
        0 <= groups_value(g) < power(g.len() as int),
    decreases g.len(),
{
    if g.len() > 0 {
        lemma_groups_value(g.drop_last());
    }
}

proof fn lemma_power_8()
    ensures
        power(8) == 0x1_0000_0000_0000_0000_0000_0000_0000_0000,
{
    reveal_with_fuel(power, 9);
}

fn value_of_groups(g: &[u16]) -> (r: u128)
    requires
        g@.len() == 8,
    ensures
        r == groups_value(g@),
{
    let mut value: u128 = 0;
    let mut i: usize = 0;
    while i < g.len()
        invariant
            0 <= i <= g@.len(),
            g@.len() == 8,
            value == groups_value(g@.take(i as int)),
        decreases g.len() - i,
    {
        proof {
            let part = g@.take(i + 1);
            assert(part.drop_last() =~= g@.take(i as int));
            lemma_groups_value(part);
            lemma_power_mono(i + 1, 8);
            lemma_power_8();
        }
        value = value * 0x10000 + g[i] as u128;
        i = i + 1;
    }
    assert(g@.take(8) =~= g@);
    value
}

fn parse_v4_listen(t: &[char]) -> (r: Option<ListenAddr>)
    ensures
        r == v4_listen(t@),
{
    match split_once_slice(t, ':') {
        None => None,
        Some((host, port)) => match (parse_ipv4(host), parse_plain(port, 10, 0xffff)) {
            (Some(ip), Some(p)) => Some(ListenAddr::V4 { ipv4: ip, port: p as u16 }),
            _ => None,
        },
    }
}

fn parse_scoped(t: &[char]) -> (r: Option<(Vec<u16>, u32)>)
    ensures
        match r {
            Some((g, s)) => scoped(t@) == Some((g@, s as int)) && g@.len() == 8,
            None => scoped(t@) is None,
        },
{
    match split_once_slice(t, '%') {
        None => match parse_ipv6(t) {
            Some(g) => Some((g, 0)),
            None => None,
        },
        Some((host, scope)) => match (parse_ipv6(host), parse_plain(scope, 10, 0xffff_ffff)) {
            (Some(g), Some(s)) => Some((g, s as u32)),
            _ => None,
        },
    }
}

fn parse_v6_listen(t: &[char]) -> (r: Option<ListenAddr>)
    ensures
        r == v6_listen(t@),
{
    if t.len() == 0 || t[0] != '[' {
        return None;
    }
    match split_once_slice(slice_subrange(t, 1, t.len()), ']') {
        None => None,
        Some((inner, after)) => {
            if after.len() == 0 || after[0] != ':' {
                return None;
            }
            let port = parse_plain(slice_subrange(after, 1, after.len()), 10, 0xffff);
            match (parse_scoped(inner), port) {
                (Some((g, s)), Some(p)) => Some(
                    ListenAddr::V6 {
                        ipv6: value_of_groups(g.as_slice()),
                        scope: s,
                        ipv6_port: p as u16,
                    },
                ),
                _ => None,
            }
        },
    }
}

// Text

/// The text of a version 4 address.
pub open spec fn ipv4_text(ip: int) -> Seq<char> {
    digits(ip / 0x1000000, 10) + "."@ + digits(ip / 0x10000 % 0x100, 10) + "."@ + digits(
        ip / 0x100 % 0x100,
        10,
    ) + "."@ + digits(ip % 0x100, 10)
}

/// The last `n` digits of a number in base 65536.
pub open spec fn groups_of(v: int, n: int) -> Seq<u16>
    decreases n,
{
    if n <= 0 {
        Seq::empty()
    } else {
        groups_of(v / 0x10000, n - 1).push((v % 0x10000) as u16)
    }
}

/// Runs of zero groups: the first longest one, and the one at the end.
pub struct ZeroRuns {
    pub start: int,
    pub len: int,
    pub last_start: int,
    pub last_len: int,
}

/// The runs of zero groups in `g`.
pub open spec fn zero_runs(g: Seq<u16>) -> ZeroRuns
    decreases g.len(),
{
    if g.len() == 0 {
        ZeroRuns { start: 0, len: 0, last_start: 0, last_len: 0 }
    } else {
        let r = zero_runs(g.drop_last());
        if g.last() != 0 {
            ZeroRuns { last_start: 0, last_len: 0, ..r }
        } else {
            let last_start = if r.last_len == 0 {
                g.len() - 1
            } else {
                r.last_start
            };
            let last_len = r.last_len + 1;
            if last_len > r.len {
                ZeroRuns { start: last_start, len: last_len, last_start, last_len }
            } else {
                ZeroRuns { last_start, last_len, ..r }
            }
        }
    }
}

/// Hexadecimal groups with colons between them.
pub open spec fn groups_text(g: Seq<u16>) -> Seq<char>
    decreases g.len(),
{
    if g.len() == 0 {
        Seq::empty()
    } else if g.len() == 1 {
        digits(g[0] as int, 16)
    } else {
        groups_text(g.drop_last()) + ":"@ + digits(g.last() as int, 16)
    }
}

/// The text of a version 6 address. A double colon stands for the first longest run of at least
/// two zero groups, and an address that maps a version 4 address shows it.
pub open spec fn ipv6_text(g: Seq<u16>) -> Seq<char> {
    if g[0] == 0 && g[1] == 0 && g[2] == 0 && g[3] == 0 && g[4] == 0 && g[5] == 0xffff {
        "::ffff:"@ + ipv4_text(g[6] * 0x10000 + g[7])
    } else {
        let r = zero_runs(g);
        if r.len > 1 {
            groups_text(g.take(r.start)) + "::"@ + groups_text(g.skip(r.start + r.len))
        } else {
            groups_text(g)
        }
    }
}

/// The text of a socket address.
pub open spec fn addr_text(a: ListenAddr) -> Seq<char> {
    match a {
        ListenAddr::V4 { ipv4, port } => ipv4_text(ipv4 as int) + ":"@ + digits(port as int, 10),
        ListenAddr::V6 { ipv6, scope, ipv6_port } => "["@ + ipv6_text(groups_of(ipv6 as int, 8)) + (
        if scope == 0 {
            Seq::empty()
        } else {
            "%"@ + digits(scope as int, 10)
        }) + "]:"@ + digits(ipv6_port as int, 10),
    }
}

fn push_ipv4(out: &mut String, ip: u32)
    ensures
        final(out)@ == old(out)@ + ipv4_text(ip as int),
{
    let ghost start = out@;
    push_number(out, (ip / 0x1000000) as u128, 10);
    out.append(".");
    push_number(out, (ip / 0x10000 % 0x100) as u128, 10);
    out.append(".");
    push_number(out, (ip / 0x100 % 0x100) as u128, 10);
    out.append(".");
    push_number(out, (ip % 0x100) as u128, 10);
    assert(out@ =~= start + ipv4_text(ip as int));
}

fn split_groups(v: u128, n: usize) -> (r: Vec<u16>)
    ensures
        r@ == groups_of(v as int, n as int),
        r@.len() == n,
    decreases n,
{
    if n == 0 {
        Vec::new()
    } else {
        let mut r = split_groups(v / 0x10000, n - 1);
        r.push((v % 0x10000) as u16);
        r
    }
}

fn push_groups(out: &mut String, g: &[u16])
    ensures
        final(out)@ == old(out)@ + groups_text(g@),
{
    let ghost start = out@;
    let mut i: usize = 0;
    assert(start + groups_text(g@.take(0)) =~= start);
    while i < g.len()
        invariant
            0 <= i <= g@.len(),
            out@ == start + groups_text(g@.take(i as int)),
        decreases g.len() - i,
    {
        let ghost part = g@.take(i + 1);
        assert(part.drop_last() =~= g@.take(i as int));
        if i > 0 {
            out.append(":");
        }
        push_number(out, g[i] as u128, 16);
        i = i + 1;
        assert(out@ =~= start + groups_text(part));
    }
    assert(g@.take(g@.len() as int) =~= g@);
}

fn push_ipv6(out: &mut String, g: &[u16])
    requires
        g@.len() == 8,
    ensures
        final(out)@ == old(out)@ + ipv6_text(g@),
{
    let ghost begin = out@;
    if g[0] == 0 && g[1] == 0 && g[2] == 0 && g[3] == 0 && g[4] == 0 && g[5] == 0xffff {
        out.append("::ffff:");
        push_ipv4(out, g[6] as u32 * 0x10000 + g[7] as u32);
        assert(out@ =~= begin + ipv6_text(g@));
        return ;
    }
    let mut start: usize = 0;
    let mut len: usize = 0;
    let mut last_start: usize = 0;
    let mut last_len: usize = 0;
    let mut i: usize = 0;
    while i < 8
        invariant
            0 <= i <= 8,
            g@.len() == 8,
            zero_runs(g@.take(i as int)) == (ZeroRuns {
                start: start as int,
                len: len as int,
                last_start: last_start as int,
                last_len: last_len as int,
            }),
            start + len <= i,
            last_len > 0 ==> last_start + last_len == i,
            last_len <= i,
        decreases 8 - i,
    {
        assert(g@.take(i + 1).drop_last() =~= g@.take(i as int));
        if g[i] == 0 {
            if last_len == 0 {
                last_start = i;
            }
            last_len = last_len + 1;
            if last_len > len {
                start = last_start;
                len = last_len;
            }
        } else {
            last_start = 0;
            last_len = 0;
        }
        i = i + 1;
    }
    assert(g@.take(8) =~= g@);
    if len > 1 {
        push_groups(out, slice_subrange(g, 0, start));
        out.append("::");
        push_groups(out, slice_subrange(g, start + len, 8));
        assert(out@ =~= begin + ipv6_text(g@));
    } else {
        push_groups(out, g);
    }
}

impl ListenAddr {
    /// The text of the address.
    pub fn to_text(&self) -> (r: String)
        ensures
            r@ == addr_text(*self),
    {
        let mut out = String::new();
        match *self {
            ListenAddr::V4 { ipv4, port } => {
                push_ipv4(&mut out, ipv4);
                out.append(":");
                push_number(&mut out, port as u128, 10);
            },
            ListenAddr::V6 { ipv6, scope, ipv6_port } => {
                out.append("[");
                push_ipv6(&mut out, split_groups(ipv6, 8).as_slice());
                if scope != 0 {
                    out.append("%");
                    push_number(&mut out, scope as u128, 10);
                }
                out.append("]:");
                push_number(&mut out, ipv6_port as u128, 10);
            },
        }
        assert(out@ =~= addr_text(*self));
        out
    }

    /// Reads an address and a port.
    pub fn parse(t: &[char]) -> (r: Option<ListenAddr>)
        ensures
            r == listen_addr(t@),
    {
        match parse_v4_listen(t) {
            Some(a) => Some(a),
            None => parse_v6_listen(t),
        }
    }
}

} // verus!
