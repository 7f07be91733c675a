//! Reading numbers from text: identifiers and decimal amounts.

use crate::input::Amount;
use vstd::prelude::*;

verus! {

/// The largest whole part that an amount can have, in units.
pub const MAX_UNITS: u64 = 4_000_000_000_000_000_000;

/// Whether `c` is one of the ten ASCII digits.
pub open spec fn is_digit(c: char) -> bool {
    48 <= c as u32 <= 57
}

/// The number that the digit `c` stands for.
pub open spec fn digit_value(c: char) -> nat {
    (c as u32 - 48) as nat
}

/// Whether every character of `s` from `from` up to `to` is a digit.
pub open spec fn all_digits(s: Seq<char>, from: int, to: int) -> bool {
    forall|i: int| from <= i < to ==> is_digit(#[trigger] s[i])
}

/// The number spelled by the digits of `s` from `from` up to `to`.
pub open spec fn digits_value(s: Seq<char>, from: int, to: int) -> nat
    decreases to - from,
{
    if to <= from {
        0
    } else {
        digits_value(s, from, to - 1) * 10 + digit_value(s[to - 1])
    }
}

/// The end of the longest run of digits in `s` that starts at `from`.
pub open spec fn digit_run_end(s: Seq<char>, from: int) -> int
    decreases s.len() - from,
{
    if 0 <= from < s.len() && is_digit(s[from]) {
        digit_run_end(s, from + 1)
    } else {
        from
    }
}

/// The unsigned integer that `s` spells, if it is at most `max`: an optional
/// `+`, then one or more digits and nothing else.
pub open spec fn unsigned_of(s: Seq<char>, max: nat) -> Option<nat> {
    let from: int = if s.len() > 0 && s[0] == '+' {
        1
    } else {
        0
    };
    let value = digits_value(s, from, s.len() as int);
    if from < s.len() && all_digits(s, from, s.len() as int) && value <= max {
        Some(value)
    } else {
        None
    }
}

/// The number spelled by the first `count` digits of the fraction that starts
/// at `from`, where a digit that the text does not have counts as `0`.
pub open spec fn fraction_value(s: Seq<char>, from: int, count: int) -> nat
    decreases count,
{
    if count <= 0 {
        0
    } else {
        let digit = if from + count - 1 < s.len() {
            digit_value(s[from + count - 1])
        } else {
            0
        };
        fraction_value(s, from, count - 1) * 10 + digit
    }
}

/// The amount that `s` spells, in billionths: an optional sign, digits, and
/// optionally a point followed by digits, with at least one digit in all.
///
/// Fractional digits after the ninth are dropped, so the magnitude is rounded
/// towards zero. The whole part must be at most `MAX_UNITS`. Exponents and
/// the names of infinities are not decimal numbers and give `None`.
pub open spec fn amount_of(s: Seq<char>) -> Option<Amount> {
    let n = s.len() as int;
    let negative = n > 0 && s[0] == '-';
    let start: int = if n > 0 && (s[0] == '-' || s[0] == '+') {
        1
    } else {
        0
    };
    let point = digit_run_end(s, start);
    let frac_from = if point < n {
        point + 1
    } else {
        n
    };
    let whole = digits_value(s, start, point);
    let magnitude = whole * 1_000_000_000 + fraction_value(s, frac_from, 9);
    if (point == n || s[point] == '.') && all_digits(s, frac_from, n) && (point - start) + (n
        - frac_from) > 0 && whole <= MAX_UNITS {
        Some(
            Amount {
                nanos: if negative {
                    (-magnitude) as i128
                } else {
                    magnitude as i128
                },
            },
        )
    } else {
        None
    }
}

/// Ten to the power `j`, for the at most nine digits of a fraction.
spec fn fraction_cap(j: int) -> int {
    if j <= 0 {
        1
    } else if j == 1 {
        10
    } else if j == 2 {
        100
    } else if j == 3 {
        1_000
    } else if j == 4 {
        10_000
    } else if j == 5 {
        100_000
    } else if j == 6 {
        1_000_000
    } else if j == 7 {
        10_000_000
    } else if j == 8 {
        100_000_000
    } else {
        1_000_000_000
    }
}

/// Reading more digits never makes the number smaller.
pub proof fn lemma_digits_value_grows(s: Seq<char>, from: int, mid: int, to: int)
    requires
        from <= mid <= to,
    ensures
        digits_value(s, from, mid) <= digits_value(s, from, to),
    decreases to - from,
{
    if mid < to {
        lemma_digits_value_grows(s, from, mid, to - 1);
    }
}

/// A run of digits that stops at `end` is the longest one.
pub proof fn lemma_digit_run_end(s: Seq<char>, from: int, end: int)
    requires
        0 <= from <= end <= s.len(),
        all_digits(s, from, end),
        end == s.len() || !is_digit(s[end]),
    ensures
        digit_run_end(s, from) == end,
    decreases end - from,
{
    if from < end {
        assert(is_digit(s[from]));
        lemma_digit_run_end(s, from + 1, end);
    }
}

/// Every text made of an optional sign, digits, and optionally a point and
/// more digits, with at least one digit in all, is read as an amount, however
/// many digits its fraction has, as long as its whole part is in range.
pub proof fn lemma_decimal_text_is_read(s: Seq<char>, start: int, point: int)
    requires
        start == 0 || (start == 1 && (s[0] == '-' || s[0] == '+')),
        start <= point <= s.len(),
        start == 0 && s.len() > 0 ==> s[0] != '-' && s[0] != '+',
        all_digits(s, start, point),
        point == s.len() || s[point] == '.',
        all_digits(s, point + 1, s.len() as int),
        s.len() - start >= 1,
        s.len() - start >= 2 || point > start,
        digits_value(s, start, point) <= MAX_UNITS,
    ensures
        amount_of(s) is Some,
{
    if point < s.len() {
        assert(!is_digit(s[point]));
    }
    lemma_digit_run_end(s, start, point);
}

/// Whether the character is an ASCII digit.
fn digit_char(c: char) -> (r: bool)
    ensures
        r == is_digit(c),
{
    let code: u32 = c as u32;
    48 <= code && code <= 57
}

/// Finds where the run of digits that starts at `from` ends.
fn scan_digits(s: &str, from: usize) -> (end: usize)
    requires
        from <= s@.len(),
    ensures
        from <= end <= s@.len(),
        all_digits(s@, from as int, end as int),
        end == s@.len() || !is_digit(s@[end as int]),
        end == digit_run_end(s@, from as int),
{
    let n = s.unicode_len();
    let mut end: usize = from;
    while end < n && digit_char(s.get_char(end))
        invariant
            n == s@.len(),
            from <= end <= n,
            all_digits(s@, from as int, end as int),
        decreases n - end,
    {
        end += 1;
    }
    proof {
        lemma_digit_run_end(s@, from as int, end as int);
    }
    end
}

/// Reads the number spelled by the digits of `s` from `from` up to `to`.
/// Gives `None` as soon as the number exceeds `max`.
fn read_digits(s: &str, from: usize, to: usize, max: u64) -> (r: Option<u64>)
    requires
        from <= to <= s@.len(),
        all_digits(s@, from as int, to as int),
    ensures
        r == if digits_value(s@, from as int, to as int) <= max {
            Some(digits_value(s@, from as int, to as int) as u64)
        } else {
            None
        },
{
    let mut acc: u64 = 0;
    let mut i: usize = from;
    while i < to
        invariant
            from <= i <= to <= s@.len(),
            all_digits(s@, from as int, to as int),
            acc == digits_value(s@, from as int, i as int),
            acc <= max,
        decreases to - i,
    {
        let c = s.get_char(i);
        assert(is_digit(s@[i as int]));
        let digit: u128 = (c as u32 - 48) as u128;
        let next: u128 = acc as u128 * 10 + digit;
        assert(next == digits_value(s@, from as int, i + 1));
        if next > max as u128 {
            proof {
                lemma_digits_value_grows(s@, from as int, i + 1, to as int);
            }
            return None;
        }
        acc = next as u64;
        i += 1;
    }
    Some(acc)
}

/// Reads an unsigned integer of at most `max`.
pub fn parse_unsigned(s: &str, max: u64) -> (r: Option<u64>)
    ensures
        match r {
            Some(v) => unsigned_of(s@, max as nat) == Some(v as nat),
            None => unsigned_of(s@, max as nat) is None,
        },
{
    let n = s.unicode_len();
    let mut from: usize = 0;
    if n > 0 && s.get_char(0) == '+' {
        from = 1;
    }
    if from >= n {
        return None;
    }
    let end = scan_digits(s, from);
    if end < n {
        return None;
    }
    read_digits(s, from, n, max)
}

/// Reads the first nine digits of the fraction that starts at `from`, as
/// billionths.
fn read_fraction(s: &str, from: usize) -> (r: u64)
    requires
        from <= s@.len(),
        all_digits(s@, from as int, s@.len() as int),
    ensures
        r == fraction_value(s@, from as int, 9),
        r < 1_000_000_000,
{
    let n = s.unicode_len();
    let mut acc: u64 = 0;
    let mut j: usize = 0;
    while j < 9
        invariant
            j <= 9,
            n == s@.len(),
            from <= n,
            all_digits(s@, from as int, n as int),
            acc == fraction_value(s@, from as int, j as int),
            acc < fraction_cap(j as int),
        decreases 9 - j,
    {
        let mut digit: u64 = 0;
        if j < n - from {
            let c = s.get_char(from + j);
            assert(is_digit(s@[from + j]));
            digit = (c as u32 - 48) as u64;
        }
        acc = acc * 10 + digit;
        j += 1;
    }
    acc
}

/// Reads a decimal amount.
pub fn parse_amount(s: &str) -> (r: Option<Amount>)
    ensures
        r == amount_of(s@),
        r is Some ==> r.unwrap().valid(),
{
    let n = s.unicode_len();
    let mut start: usize = 0;
    let mut negative = false;
    if n > 0 {
        let sign = s.get_char(0);
        if sign == '-' {
            negative = true;
            start = 1;
        } else if sign == '+' {
            start = 1;
        }
    }
    let point = scan_digits(s, start);
    let mut frac_from: usize = n;
    if point < n {
        if s.get_char(point) != '.' {
            return None;
        }
        frac_from = point + 1;
    }
    let frac_end = scan_digits(s, frac_from);
    if frac_end < n {
        return None;
    }
    if (point - start) + (n - frac_from) == 0 {
        return None;
    }
    let whole = match read_digits(s, start, point, MAX_UNITS) {
        Some(v) => v,
        None => {
            return None;
        },
    };
    let fraction = read_fraction(s, frac_from);
    let magnitude: i128 = whole as i128 * 1_000_000_000 + fraction as i128;
    let nanos: i128 = if negative {
        -magnitude
    } else {
        magnitude
    };
    Some(Amount { nanos })
}

} // verus!
