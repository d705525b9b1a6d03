//! Numbers as decimal text.

use vstd::prelude::*;

use crate::text::{from_chars, to_chars};

verus! {

pub open spec fn is_digit(c: char) -> bool {
    '0' <= c && c <= '9'
}

pub open spec fn all_digits(s: Seq<char>) -> bool {
    forall|i: int| 0 <= i < s.len() ==> is_digit(#[trigger] s[i])
}

/// The number that a run of digits writes.
pub open spec fn digits_value(s: Seq<char>) -> nat
    decreases s.len(),
{
    if s.len() == 0 {
        0
    } else {
        digits_value(s.drop_last()) * 10 + digit_value(s.last())
    }
}

pub open spec fn digit_value(c: char) -> nat {
    (c as u32 - '0' as u32) as nat
}

/// The character of a single digit.
pub open spec fn digit_char(d: nat) -> char {
    ('0' as u32 + d) as char
}

/// `n` without leading zeros.
pub open spec fn decimal(n: nat) -> Seq<char>
    decreases n,
{
    if n < 10 {
        seq![digit_char(n)]
    } else {
        decimal(n / 10).push(digit_char(n % 10))
    }
}

/// `i` without leading zeros, after a minus sign if it is negative.
pub open spec fn int_text(i: int) -> Seq<char> {
    if i < 0 {
        seq!['-'] + decimal((-i) as nat)
    } else {
        decimal(i as nat)
    }
}

/// The number that `s` writes: digits, at least one, after an optional plus sign.
pub open spec fn natural_of(s: Seq<char>) -> Option<nat> {
    let body = if s.len() > 0 && s[0] == '+' {
        s.skip(1)
    } else {
        s
    };
    if body.len() > 0 && all_digits(body) {
        Some(digits_value(body))
    } else {
        None
    }
}

/// The number that `s` writes, with an optional sign before its digits.
pub open spec fn integer_of(s: Seq<char>) -> Option<int> {
    if s.len() > 0 && s[0] == '-' {
        let body = s.skip(1);
        if body.len() > 0 && all_digits(body) {
            Some(-(digits_value(body) as int))
        } else {
            None
        }
    } else {
        match natural_of(s) {
            Some(n) => Some(n as int),
            None => None,
        }
    }
}

/// The number that `s` writes, if it is at most `max`.
pub open spec fn natural_within(s: Seq<char>, max: int) -> Option<nat> {
    match natural_of(s) {
        Some(n) if n <= max => Some(n),
        _ => None,
    }
}

/// The number that `s` writes, if it lies between `min` and `max`.
pub open spec fn integer_within(s: Seq<char>, min: int, max: int) -> Option<int> {
    match integer_of(s) {
        Some(n) if min <= n <= max => Some(n),
        _ => None,
    }
}

fn digit_of(d: u64) -> (c: char)
    requires
        d < 10,
    ensures
        c == digit_char(d as nat),
        is_digit(c),
        digit_value(c) == d,
{
    if d == 0 {
        '0'
    } else if d == 1 {
        '1'
    } else if d == 2 {
        '2'
    } else if d == 3 {
        '3'
    } else if d == 4 {
        '4'
    } else if d == 5 {
        '5'
    } else if d == 6 {
        '6'
    } else if d == 7 {
        '7'
    } else if d == 8 {
        '8'
    } else {
        '9'
    }
}

fn decimal_chars(n: u64) -> (r: Vec<char>)
    ensures
        r@ == decimal(n as nat),
    decreases n,
{
    if n < 10 {
        let mut out: Vec<char> = Vec::new();
        out.push(digit_of(n));
        assert(out@ =~= seq![digit_char(n as nat)]);
        out
    } else {
        let mut out: Vec<char> = decimal_chars(n / 10);
        out.push(digit_of(n % 10));
        out
    }
}

/// Writes an unsigned number.
pub fn decimal_text(n: u64) -> (r: String)
    ensures
        r@ == decimal(n as nat),
{
    let chars: Vec<char> = decimal_chars(n);
    from_chars(&chars)
}

/// Writes a signed number.
pub fn signed_text(i: i64) -> (r: String)
    ensures
        r@ == int_text(i as int),
{
    if i < 0 {
        let magnitude: u64 = (-(i as i128)) as u64;
        let mut digits: Vec<char> = decimal_chars(magnitude);
        let mut out: Vec<char> = Vec::new();
        out.push('-');
        out.append(&mut digits);
        assert(out@ =~= seq!['-'] + decimal(magnitude as nat));
        from_chars(&out)
    } else {
        decimal_text(i as u64)
    }
}

proof fn lemma_value_grows(s: Seq<char>, k: int)
    requires
        0 <= k <= s.len(),
    ensures
        digits_value(s.take(k)) <= digits_value(s),
    decreases s.len() - k,
{
    if k == s.len() {
        assert(s.take(k) =~= s);
    } else {
        lemma_value_grows(s, k + 1);
        assert(s.take(k + 1).drop_last() =~= s.take(k));
    }
}

/// Reads digits from `from` on; `None` if there are none, another character stands
/// among them, or the number is over `max`.
fn digits_from(chars: &[char], from: usize, max: u64) -> (r: Option<u64>)
    requires
        from <= chars@.len(),
    ensures
        match r {
            Some(n) => {
                let body = chars@.skip(from as int);
                body.len() > 0 && all_digits(body) && digits_value(body) == n && n <= max
            },
            None => {
                let body = chars@.skip(from as int);
                body.len() == 0 || !all_digits(body) || digits_value(body) > max
            },
        },
{
    let ghost body = chars@.skip(from as int);
    if from == chars.len() {
        return None;
    }
    let mut n: u64 = 0;
    let mut i: usize = from;
    while i < chars.len()
        invariant
            from <= i <= chars@.len(),
            body == chars@.skip(from as int),
            n <= max,
            forall|j: int| 0 <= j < i - from ==> is_digit(#[trigger] body[j]),
            n == digits_value(body.take(i - from)),
        decreases chars.len() - i,
    {
        let c: char = chars[i];
        let ghost k = i - from;
        assert(body[k] == c);
        if c < '0' || '9' < c {
            assert(!is_digit(body[k]));
            return None;
        }
        let d: u32 = c as u32 - '0' as u32;
        assert(body.take(k + 1).drop_last() =~= body.take(k));
        let next: u128 = (n as u128) * 10 + d as u128;
        assert(next == digits_value(body.take(k + 1)));
        if next > max as u128 {
            proof {
                lemma_value_grows(body, k + 1);
            }
            return None;
        }
        n = next as u64;
        i = i + 1;
    }
    assert(body.take(i - from) =~= body);
    Some(n)
}

/// Reads an unsigned number of at most `max`.
pub fn parse_natural(s: &str, max: u64) -> (r: Option<u64>)
    ensures
        match r {
            Some(n) => natural_within(s@, max as int) == Some(n as nat),
            None => natural_within(s@, max as int) is None,
        },
{
    let chars: Vec<char> = to_chars(s);
    if chars.len() > 0 && chars[0] == '+' {
        digits_from(&chars, 1, max)
    } else {
        assert(chars@.skip(0) =~= chars@);
        digits_from(&chars, 0, max)
    }
}

/// Reads a signed 64-bit number.
pub fn parse_i64(s: &str) -> (r: Option<i64>)
    ensures
        match r {
            Some(n) => integer_within(s@, i64::MIN as int, i64::MAX as int) == Some(n as int),
            None => integer_within(s@, i64::MIN as int, i64::MAX as int) is None,
        },
{
    let chars: Vec<char> = to_chars(s);
    if chars.len() > 0 && chars[0] == '-' {
        match digits_from(&chars, 1, 0x8000_0000_0000_0000) {
            Some(n) => Some((-(n as i128)) as i64),
            None => None,
        }
    } else {
        match parse_natural(s, i64::MAX as u64) {
            Some(n) => Some(n as i64),
            None => None,
        }
    }
}

/// Reading what was written gives the number back.
pub proof fn law_decimal_round_trip(n: nat)
    ensures
        natural_of(decimal(n)) == Some(n),
        integer_of(int_text(n as int)) == Some(n as int),
        n > 0 ==> integer_of(int_text(-(n as int))) == Some(-(n as int)),
{
    lemma_decimal(n);
    assert((seq!['-'] + decimal(n)).skip(1) =~= decimal(n));
}

/// Reading a signed number that was written gives it back.
pub proof fn law_int_text_round_trip(i: int)
    ensures
        integer_of(int_text(i)) == Some(i),
{
    if i < 0 {
        law_decimal_round_trip((-i) as nat);
    } else {
        law_decimal_round_trip(i as nat);
    }
}

proof fn lemma_decimal(n: nat)
    ensures
        decimal(n).len() > 0,
        all_digits(decimal(n)),
        digits_value(decimal(n)) == n,
        decimal(n)[0] != '+',
        decimal(n)[0] != '-',
    decreases n,
{
    reveal_with_fuel(digits_value, 2);
    if n < 10 {
        assert(seq![digit_char(n)].drop_last() =~= Seq::<char>::empty());
    } else {
        lemma_decimal(n / 10);
        assert(decimal(n).drop_last() =~= decimal(n / 10));
        assert(decimal(n)[0] == decimal(n / 10)[0]);
    }
}

/// Decimal text is the digits of the number, the last digit last: below ten it is that one
/// digit, and a further digit makes ten times as much and the digit. No digit but a lone
/// zero leads with zero, and a minus sign stands before a negative number.
pub proof fn law_decimal_is_written_by_digits(n: nat, d: nat)
    requires
        d < 10,
    ensures
        decimal(d) == seq![(48 + d) as char],
        n > 0 ==> decimal(10 * n + d) == decimal(n).push((48 + d) as char),
        n > 0 ==> decimal(n)[0] != '0',
        n > 0 ==> int_text(-(n as int)) == seq!['-'] + decimal(n),
        int_text(n as int) == decimal(n),
    decreases n,
{
    if n > 0 {
        assert((10 * n + d) / 10 == n);
        assert((10 * n + d) % 10 == d);
        if n >= 10 {
            law_decimal_is_written_by_digits(n / 10, n % 10);
            lemma_decimal(n / 10);
        }
    }
}

/// Digits are read from the left: each makes ten times as much as before, and itself.
pub proof fn law_digits_are_read_in_order(s: Seq<char>, c: char)
    requires
        '0' <= c && c <= '9',
    ensures
        digits_value(Seq::<char>::empty()) == 0,
        digits_value(s.push(c)) == 10 * digits_value(s) + (c as u32 - 48),
        s.len() > 0 && (forall|i: int| 0 <= i < s.len() ==> '0' <= #[trigger] s[i] && s[i] <= '9')
            ==> natural_of(s) == Some(digits_value(s)) && natural_of(seq!['+'] + s) == Some(
            digits_value(s),
        ) && integer_of(s) == Some(digits_value(s) as int) && integer_of(seq!['+'] + s) == Some(
            digits_value(s) as int,
        ) && integer_of(seq!['-'] + s) == Some(-(digits_value(s) as int)),
{
    assert(s.push(c).drop_last() =~= s);
    assert((seq!['+'] + s).skip(1) =~= s);
    assert((seq!['-'] + s).skip(1) =~= s);
}

/// Nothing but digits after one optional sign is a number, and a sign alone is none; a
/// minus sign makes no unsigned number.
pub proof fn law_only_digits_are_numbers(s: Seq<char>, i: int)
    ensures
        natural_of(s) is Some ==> s.len() > 0 && (0 <= i < s.len() ==> ('0' <= s[i] && s[i] <= '9')
            || (i == 0 && s[0] == '+' && s.len() > 1)),
        integer_of(s) is Some ==> s.len() > 0 && (0 <= i < s.len() ==> ('0' <= s[i] && s[i] <= '9')
            || (i == 0 && (s[0] == '+' || s[0] == '-') && s.len() > 1)),
{
    if i > 0 && i < s.len() {
        assert(s.skip(1)[i - 1] == s[i]);
    }
}

/// A number within bounds is read as it is; one outside them is not read.
pub proof fn law_bounds_only_refuse(s: Seq<char>, min: int, max: int)
    ensures
        natural_within(s, max) == if natural_of(s) is Some && natural_of(s)->0 <= max {
            natural_of(s)
        } else {
            None::<nat>
        },
        integer_within(s, min, max) == if integer_of(s) is Some && min <= integer_of(s)->0 <= max {
            integer_of(s)
        } else {
            None::<int>
        },
{
}

} // verus!
