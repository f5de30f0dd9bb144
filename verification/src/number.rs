//! Numbers as text: reading and writing unsigned integers in bases up to sixteen.

use vstd::prelude::*;
use vstd::slice::slice_subrange;

verus! {

/// The value of a hexadecimal digit.
pub open spec fn hex_value(c: char) -> Option<int> {
    if '0' <= c <= '9' {
        Some(c as int - '0' as int)
    } else if 'a' <= c <= 'f' {
        Some(c as int - 'a' as int + 10)
    } else if 'A' <= c <= 'F' {
        Some(c as int - 'A' as int + 10)
    } else {
        None
    }
}

/// The value of a digit in the given base.
pub open spec fn digit_value(c: char, radix: int) -> Option<int> {
    match hex_value(c) {
        Some(v) => if v < radix {
            Some(v)
        } else {
            None
        },
        None => None,
    }
}

/// The number that digits denote, with the most significant digit first.
pub open spec fn digits_value(d: Seq<char>, radix: int) -> Option<int>
    decreases d.len(),
{
    if d.len() == 0 {
        Some(0)
    } else {
        match (digits_value(d.drop_last(), radix), digit_value(d.last(), radix)) {
            (Some(high), Some(low)) => Some(high * radix + low),
            _ => None,
        }
    }
}

/// The number, at most `max`, that a text denotes: an optional plus sign and at least one digit.
pub open spec fn number(s: Seq<char>, radix: int, max: int) -> Option<int> {
    let d = if s.len() > 0 && s[0] == '+' {
        s.skip(1)
    } else {
        s
    };
    match digits_value(d, radix) {
        Some(v) => if d.len() > 0 && v <= max {
            Some(v)
        } else {
            None
        },
        None => None,
    }
}

proof fn lemma_digits_prefix(d: Seq<char>, radix: int, i: int)
    requires
        radix >= 2,
        0 <= i <= d.len(),
    ensures
        digits_value(d, radix) is Some ==> digits_value(d.take(i), radix) is Some && 0
            <= digits_value(d.take(i), radix)->0 <= digits_value(d, radix)->0,
    decreases d.len(),
{
    if i == d.len() {
        assert(d.take(i) == d);
        if d.len() > 0 {
            lemma_digits_prefix(d.drop_last(), radix, d.len() - 1);
            assert(d.drop_last().take(d.len() - 1) == d.drop_last());
            if digits_value(d, radix) is Some {
                let high = digits_value(d.drop_last(), radix)->0;
                assert(high * radix >= 0) by (nonlinear_arith)
                    requires
                        high >= 0,
                        radix >= 2,
                ;
            }
        }
    } else {
        lemma_digits_prefix(d.drop_last(), radix, i);
        assert(d.drop_last().take(i) == d.take(i));
        if digits_value(d, radix) is Some {
            lemma_digits_prefix(d.drop_last(), radix, d.len() - 1);
            assert(d.drop_last().take(d.len() - 1) == d.drop_last());
            let high = digits_value(d.drop_last(), radix)->0;
            assert(high * radix >= high) by (nonlinear_arith)
                requires
                    high >= 0,
                    radix >= 2,
            ;
        }
    }
}

/// Digits that denote a number start with a digit.
pub proof fn lemma_digits_first(d: Seq<char>, radix: int)
    requires
        radix >= 2,
        d.len() > 0,
    ensures
        digits_value(d, radix) is Some ==> digit_value(d[0], radix) is Some,
{
    lemma_digits_prefix(d, radix, 1);
    assert(d.take(1).last() == d[0]);
}

/// A number lies between zero and its bound.
pub proof fn lemma_number_range(s: Seq<char>, radix: int, max: int)
    requires
        radix >= 2,
    ensures
        number(s, radix, max) is Some ==> 0 <= number(s, radix, max)->0 <= max,
{
    let d = if s.len() > 0 && s[0] == '+' {
        s.skip(1)
    } else {
        s
    };
    lemma_digits_prefix(d, radix, d.len() as int);
}

/// The value of a hexadecimal digit.
pub fn hex_digit(c: char) -> (r: Option<usize>)
    ensures
        match r {
            Some(v) => hex_value(c) == Some(v as int) && v < 16,
            None => hex_value(c) is None,
        },
{
    if '0' <= c && c <= '9' {
        Some((c as u8 - 48) as usize)
    } else if 'a' <= c && c <= 'f' {
        Some((c as u8 - 87) as usize)
    } else if 'A' <= c && c <= 'F' {
        Some((c as u8 - 55) as usize)
    } else {
        None
    }
}

/// Reads an unsigned number in the given base; fails on other text and above `max`.
pub fn parse_number(s: &[char], radix: usize, max: usize) -> (r: Option<usize>)
    requires
        2 <= radix <= 16,
    ensures
        match r {
            Some(v) => number(s@, radix as int, max as int) == Some(v as int),
            None => number(s@, radix as int, max as int) is None,
        },
{
    let d = if s.len() > 0 && s[0] == '+' {
        slice_subrange(s, 1, s.len())
    } else {
        assert(s@.take(s@.len() as int) == s@);
        s
    };
    if d.len() == 0 {
        return None;
    }
    let mut value: usize = 0;
    let mut i: usize = 0;
    while i < d.len()
        invariant
            0 <= i <= d@.len(),
            d@.len() > 0,
            2 <= radix <= 16,
            d@ == (if s@.len() > 0 && s@[0] == '+' {
                s@.skip(1)
            } else {
                s@
            }),
            digits_value(d@.take(i as int), radix as int) == Some(value as int),
            value <= max,
        decreases d.len() - i,
    {
        proof {
            assert(d@.take(i + 1).drop_last() == d@.take(i as int));
            assert(d@.take(i + 1).last() == d@[i as int]);
            lemma_digits_prefix(d@, radix as int, i + 1);
        }
        let low = match hex_digit(d[i]) {
            Some(v) => v,
            None => {
                return None;
            },
        };
        if low >= radix {
            return None;
        }
        let high = match value.checked_mul(radix) {
            Some(v) => v,
            None => {
                return None;
            },
        };
        if high > max || low > max - high {
            return None;
        }
        value = high + low;
        i = i + 1;
    }
    assert(d@.take(d@.len() as int) == d@);
    Some(value)
}

/// The lower-case digit of a value below sixteen.
pub open spec fn digit_char(v: int) -> char {
    if v < 10 {
        ('0' as int + v) as char
    } else {
        ('a' as int + v - 10) as char
    }
}

/// The digits of a number, without leading zeros.
pub open spec fn digits(n: int, radix: int) -> Seq<char>
    decreases n,
    when radix >= 2
{
    if n < radix {
        seq![digit_char(n)]
    } else {
        proof {
            assert(0 <= n / radix < n) by (nonlinear_arith)
                requires
                    n >= radix,
                    radix >= 2,
            ;
        }
        digits(n / radix, radix).push(digit_char(n % radix))
    }
}

/// The decimal digits of a number.
pub open spec fn decimal(n: int) -> Seq<char> {
    digits(n, 10)
}

/// The digit of a value below sixteen.
pub fn to_digit(v: u8) -> (c: char)
    requires
        v < 16,
    ensures
        c == digit_char(v as int),
{
    if v < 10 {
        (48 + v) as char
    } else {
        (87 + v) as char
    }
}

/// Appends the digits of a number in the given base.
pub fn push_number(out: &mut String, n: u128, radix: u128)
    requires
        2 <= radix <= 16,
    ensures
        final(out)@ == old(out)@ + digits(n as int, radix as int),
    decreases n,
{
    if n < radix {
        out.push(to_digit(n as u8));
    } else {
        proof {
            assert(n / radix < n) by (nonlinear_arith)
                requires
                    n >= radix,
                    radix >= 2,
            ;
            assert(n % radix < radix) by (nonlinear_arith)
                requires
                    radix >= 2,
            ;
        }
        push_number(out, n / radix, radix);
        out.push(to_digit((n % radix) as u8));
    }
}

/// The decimal text of a number.
pub fn decimal_text(n: u128) -> (r: String)
    ensures
        r@ == decimal(n as int),
{
    let mut out = String::new();
    push_number(&mut out, n, 10);
    out
}

/// Every digit is a decimal digit or a lower-case letter.
pub proof fn lemma_digits_chars(n: int, radix: int)
    requires
        0 <= n,
        2 <= radix <= 16,
    ensures
        digits(n, radix).len() > 0,
        forall|k: int|
            0 <= k < digits(n, radix).len() ==> {
                let c = #[trigger] digits(n, radix)[k];
                '0' <= c <= '9' || 'a' <= c <= 'f'
            },
    decreases n,
{
    if n >= radix {
        assert(0 <= n / radix < n && 0 <= n % radix < radix) by (nonlinear_arith)
            requires
                n >= radix,
                radix >= 2,
        ;
        lemma_digits_chars(n / radix, radix);
    }
}

/// A number with decimal digits is what its digits denote.
pub proof fn lemma_digits_round_trip(n: int, radix: int)
    requires
        0 <= n,
        2 <= radix <= 16,
    ensures
        digits_value(digits(n, radix), radix) == Some(n),
        digits(n, radix).len() > 0,
        digits(n, radix)[0] != '+',
    decreases n,
{
    if n < radix {
        let d = digits(n, radix);
        assert(d.drop_last() =~= Seq::<char>::empty());
        assert(digits_value(d.drop_last(), radix) == Some(0int));
        assert(0 * radix == 0) by (nonlinear_arith);
        assert(digit_value(d.last(), radix) == Some(n));
    } else {
        assert(0 <= n / radix < n && n == (n / radix) * radix + n % radix && 0 <= n % radix < radix)
            by (nonlinear_arith)
            requires
                n >= radix,
                radix >= 2,
        ;
        lemma_digits_round_trip(n / radix, radix);
        let d = digits(n, radix);
        assert(d.drop_last() =~= digits(n / radix, radix));
        assert(digit_value(d.last(), radix) == Some(n % radix));
    }
}

/// Reading the decimal text of a number gives the number back.
pub proof fn law_decimal_round_trip(n: int, max: int)
    requires
        0 <= n <= max,
    ensures
        number(decimal(n), 10, max) == Some(n),
{
    lemma_digits_round_trip(n, 10);
}

} // verus!
