//! The texts that the standard library reads as floating-point numbers.

use vstd::prelude::*;

use crate::decimal;
use crate::template;
use crate::text;
use crate::text::{same_text, to_chars};

verus! {

pub open spec fn digit() -> spec_fn(char) -> bool {
    |c: char| decimal::is_digit(c)
}

/// `s` without a leading sign.
pub open spec fn unsigned(s: Seq<char>) -> Seq<char> {
    if s.len() > 0 && (s[0] == '+' || s[0] == '-') {
        s.skip(1)
    } else {
        s
    }
}

/// Nothing, or `e` and digits that may have a sign.
pub open spec fn is_exponent(s: Seq<char>) -> bool {
    ||| s.len() == 0
    ||| {
        let digits = unsigned(s.skip(1));
        (s[0] == 'e' || s[0] == 'E') && digits.len() > 0 && decimal::all_digits(digits)
    }
}

/// Digits with an optional point among or around them, then an optional exponent.
pub open spec fn is_number(s: Seq<char>) -> bool {
    let whole = text::run_len(s, digit()) as int;
    let rest = s.skip(whole);
    if rest.len() > 0 && rest[0] == '.' {
        let fraction = text::run_len(rest.skip(1), digit()) as int;
        (whole > 0 || fraction > 0) && is_exponent(rest.skip(1).skip(fraction))
    } else {
        whole > 0 && is_exponent(rest)
    }
}

/// A number, an infinity or `nan`, with an optional sign; letters in either case.
pub open spec fn is_float_text(s: Seq<char>) -> bool {
    let body = unsigned(s);
    ||| template::lower(body) == "inf"@
    ||| template::lower(body) == "infinity"@
    ||| template::lower(body) == "nan"@
    ||| is_number(body)
}

fn digits_end(chars: &[char], from: usize) -> (r: usize)
    requires
        from <= chars@.len(),
    ensures
        from <= r <= chars@.len(),
        r - from == text::run_len(chars@.skip(from as int), digit()),
{
    let mut i: usize = from;
    while i < chars.len() && '0' <= chars[i] && chars[i] <= '9'
        invariant
            from <= i <= chars@.len(),
            forall|j: int| from <= j < i ==> decimal::is_digit(#[trigger] chars@[j]),
        decreases chars.len() - i,
    {
        i = i + 1;
    }
    proof {
        let rest = chars@.skip(from as int);
        assert forall|j: int| 0 <= j < i - from implies digit()(#[trigger] rest[j]) by {
            assert(rest[j] == chars@[from + j]);
        }
        text::lemma_run_len_is(rest, digit(), i - from);
    }
    i
}

fn exponent_from(chars: &[char], from: usize) -> (r: bool)
    requires
        from <= chars@.len(),
    ensures
        r == is_exponent(chars@.skip(from as int)),
{
    let ghost s = chars@.skip(from as int);
    if from == chars.len() {
        return true;
    }
    assert(s[0] == chars@[from as int]);
    if chars[from] != 'e' && chars[from] != 'E' {
        return false;
    }
    let mut start: usize = from + 1;
    assert(s.skip(1) =~= chars@.skip(from + 1));
    if start < chars.len() && (chars[start] == '+' || chars[start] == '-') {
        start = start + 1;
        assert(s.skip(1).skip(1) =~= chars@.skip(start as int));
    }
    let ghost digits = chars@.skip(start as int);
    assert(digits == unsigned(s.skip(1)));
    let end: usize = digits_end(chars, start);
    proof {
        text::lemma_run_len(digits, digit());
        let n = text::run_len(digits, digit()) as int;
        if n == digits.len() {
            assert forall|i: int| 0 <= i < digits.len() implies decimal::is_digit(
                #[trigger] digits[i],
            ) by {
                assert(digit()(digits[i]));
            }
        } else {
            assert(!digit()(digits[n]));
            assert(!decimal::is_digit(digits[n]));
        }
    }
    start < chars.len() && end == chars.len()
}

fn number_from(chars: &[char], from: usize) -> (r: bool)
    requires
        from <= chars@.len(),
    ensures
        r == is_number(chars@.skip(from as int)),
{
    let ghost s = chars@.skip(from as int);
    let point: usize = digits_end(chars, from);
    assert(s.skip(point - from) =~= chars@.skip(point as int));
    if point < chars.len() && chars[point] == '.' {
        let end: usize = digits_end(chars, point + 1);
        assert(s.skip(point - from).skip(1) =~= chars@.skip(point + 1));
        assert(chars@.skip(point + 1).skip(end - point - 1) =~= chars@.skip(end as int));
        let exponent: bool = exponent_from(chars, end);
        (point > from || end > point + 1) && exponent
    } else {
        let exponent: bool = exponent_from(chars, point);
        point > from && exponent
    }
}

/// Whether a text reads as a floating-point number.
pub fn is_float(s: &str) -> (r: bool)
    ensures
        r == is_float_text(s@),
{
    let chars: Vec<char> = to_chars(s);
    let n: usize = chars.len();
    let from: usize = if n > 0 && (chars[0] == '+' || chars[0] == '-') {
        1
    } else {
        0
    };
    assert(chars@.skip(0) =~= chars@);
    let ghost body = chars@.skip(from as int);
    let lowered: String = template::lower_text(s.substring_char(from, n));
    assert(s@.subrange(from as int, n as int) =~= body);
    same_text(lowered.as_str(), "inf") || same_text(lowered.as_str(), "infinity") || same_text(
        lowered.as_str(),
        "nan",
    ) || number_from(&chars, from)
}

/// Digits, with a point among or around them or without one, are a number, with or without
/// a sign before them and an exponent behind them.
pub proof fn law_decimal_numbers_are_floats(
    sign: Seq<char>,
    whole: Seq<char>,
    point: bool,
    fraction: Seq<char>,
    exponent: Seq<char>,
)
    requires
        sign == Seq::<char>::empty() || sign == seq!['+'] || sign == seq!['-'],
        forall|i: int| 0 <= i < whole.len() ==> '0' <= #[trigger] whole[i] && whole[i] <= '9',
        forall|i: int|
            0 <= i < fraction.len() ==> '0' <= #[trigger] fraction[i] && fraction[i] <= '9',
        whole.len() + fraction.len() > 0,
        !point ==> fraction.len() == 0,
        exponent.len() > 0 ==> (exponent[0] == 'e' || exponent[0] == 'E') && exponent.len() > 1
            && ('0' <= exponent.last() && exponent.last() <= '9'),
        forall|i: int|
            1 <= i < exponent.len() ==> ('0' <= #[trigger] exponent[i] && exponent[i] <= '9') || (i
                == 1 && (exponent[1] == '+' || exponent[1] == '-')),
    ensures
        is_float_text(
            sign + whole + (if point {
                seq!['.']
            } else {
                Seq::<char>::empty()
            }) + fraction + exponent,
        ),
{
    let dot = if point {
        seq!['.']
    } else {
        Seq::<char>::empty()
    };
    let body = whole + (dot + (fraction + exponent));
    let s = sign + whole + dot + fraction + exponent;
    assert(s =~= sign + body);
    lemma_exponent_is(exponent);
    lemma_number_is(whole, point, fraction, exponent);
    assert(body[0] == if whole.len() > 0 {
        whole[0]
    } else {
        '.'
    });
    if sign.len() == 0 {
        assert(s =~= body);
    } else {
        assert(s.skip(1) =~= body);
    }
    assert(unsigned(s) == body);
}

proof fn lemma_exponent_is(e: Seq<char>)
    requires
        e.len() > 0 ==> (e[0] == 'e' || e[0] == 'E') && e.len() > 1 && ('0' <= e.last()
            && e.last() <= '9'),
        forall|i: int|
            1 <= i < e.len() ==> ('0' <= #[trigger] e[i] && e[i] <= '9') || (i == 1 && (e[1] == '+'
                || e[1] == '-')),
    ensures
        is_exponent(e),
{
    if e.len() > 0 {
        let t = e.skip(1);
        let digits = unsigned(t);
        assert(t.len() > 0 && t[0] == e[1]);
        assert(e.last() == e[e.len() - 1]);
        if t[0] == '+' || t[0] == '-' {
            assert(t.len() > 1);
            assert forall|j: int| 0 <= j < digits.len() implies decimal::is_digit(
                #[trigger] digits[j],
            ) by {
                assert(digits[j] == e[j + 2]);
            }
        } else {
            assert forall|j: int| 0 <= j < digits.len() implies decimal::is_digit(
                #[trigger] digits[j],
            ) by {
                assert(digits[j] == e[j + 1]);
            }
        }
    }
}

proof fn lemma_number_is(whole: Seq<char>, point: bool, fraction: Seq<char>, exponent: Seq<char>)
    requires
        forall|i: int| 0 <= i < whole.len() ==> '0' <= #[trigger] whole[i] && whole[i] <= '9',
        forall|i: int|
            0 <= i < fraction.len() ==> '0' <= #[trigger] fraction[i] && fraction[i] <= '9',
        whole.len() + fraction.len() > 0,
        !point ==> fraction.len() == 0,
        is_exponent(exponent),
    ensures
        is_number(
            whole + ((if point {
                seq!['.']
            } else {
                Seq::<char>::empty()
            }) + (fraction + exponent)),
        ),
{
    let dot = if point {
        seq!['.']
    } else {
        Seq::<char>::empty()
    };
    let after = fraction + exponent;
    let tail = dot + after;
    let body = whole + tail;
    assert(body.skip(whole.len() as int) =~= tail);
    assert forall|j: int| 0 <= j < whole.len() implies digit()(#[trigger] body[j]) by {
        assert(body[j] == whole[j]);
    }
    if point {
        assert(body[whole.len() as int] == '.');
        text::lemma_run_len_is(body, digit(), whole.len() as int);
        assert(tail.skip(1) =~= after);
        assert forall|j: int| 0 <= j < fraction.len() implies digit()(#[trigger] after[j]) by {
            assert(after[j] == fraction[j]);
        }
        if exponent.len() > 0 {
            assert(after[fraction.len() as int] == exponent[0]);
        }
        text::lemma_run_len_is(after, digit(), fraction.len() as int);
        assert(after.skip(fraction.len() as int) =~= exponent);
    } else {
        assert(tail =~= exponent);
        if exponent.len() > 0 {
            assert(body[whole.len() as int] == exponent[0]);
        }
        text::lemma_run_len_is(body, digit(), whole.len() as int);
    }
}

/// A number that is no infinity and not `nan` is written in digits, signs, a point and the
/// letter of an exponent, with a digit in it.
pub proof fn law_other_texts_are_no_floats(s: Seq<char>, i: int)
    requires
        is_float_text(s),
        0 <= i < s.len(),
        !('0' <= s[i] && s[i] <= '9'),
        s[i] != '.' && s[i] != 'e' && s[i] != 'E' && s[i] != '+' && s[i] != '-',
    ensures
        template::lower(unsigned(s)) == "inf"@ || template::lower(unsigned(s)) == "infinity"@
            || template::lower(unsigned(s)) == "nan"@,
{
    let body = unsigned(s);
    if is_number(body) {
        let k = if body.len() == s.len() {
            i
        } else {
            i - 1
        };
        assert(body[k] == s[i]);
        lemma_number_chars(body, k);
    }
}

proof fn lemma_number_chars(s: Seq<char>, k: int)
    requires
        is_number(s),
        0 <= k < s.len(),
    ensures
        ('0' <= s[k] && s[k] <= '9') || s[k] == '.' || s[k] == 'e' || s[k] == 'E' || s[k] == '+'
            || s[k] == '-',
{
    let whole = text::run_len(s, digit()) as int;
    text::lemma_run_len(s, digit());
    let rest = s.skip(whole);
    if k < whole {
        assert(digit()(s[k]));
    } else if rest.len() > 0 && rest[0] == '.' {
        let after = rest.skip(1);
        let fraction = text::run_len(after, digit()) as int;
        text::lemma_run_len(after, digit());
        let e = after.skip(fraction);
        if k == whole {
            assert(rest[0] == s[k]);
        } else if k < whole + 1 + fraction {
            assert(after[k - whole - 1] == s[k]);
            assert(digit()(after[k - whole - 1]));
        } else {
            assert(e[k - whole - 1 - fraction] == s[k]);
            lemma_exponent_chars(e, k - whole - 1 - fraction);
        }
    } else {
        assert(rest[k - whole] == s[k]);
        lemma_exponent_chars(rest, k - whole);
    }
}

proof fn lemma_exponent_chars(e: Seq<char>, k: int)
    requires
        is_exponent(e),
        0 <= k < e.len(),
    ensures
        ('0' <= e[k] && e[k] <= '9') || e[k] == 'e' || e[k] == 'E' || e[k] == '+' || e[k] == '-',
{
    let t = e.skip(1);
    let digits = unsigned(t);
    if k > 0 {
        assert(t[k - 1] == e[k]);
        if digits.len() == t.len() {
            assert(decimal::is_digit(digits[k - 1]));
        } else if k > 1 {
            assert(digits[k - 2] == e[k]);
            assert(decimal::is_digit(digits[k - 2]));
        }
    }
}

/// The words for an infinity and for what is no number are read, whatever their case and
/// with or without a sign; nothing, a sign, a point and an exponent alone are not.
pub proof fn law_words_are_floats(word: Seq<char>)
    requires
        word.len() > 0,
        word[0] != '+' && word[0] != '-',
        template::lower(word) == "inf"@ || template::lower(word) == "infinity"@
            || template::lower(word) == "nan"@,
    ensures
        is_float_text(word),
        is_float_text(seq!['-'] + word),
        is_float_text(seq!['+'] + word),
        !is_float_text(Seq::<char>::empty()),
        !is_float_text(seq!['-']),
        !is_float_text(seq!['.']),
        !is_float_text(seq!['e', '5']),
{
    assert((seq!['-'] + word).skip(1) =~= word);
    assert((seq!['+'] + word).skip(1) =~= word);
    reveal_strlit("inf");
    reveal_strlit("infinity");
    reveal_strlit("nan");
    let none = Seq::<char>::empty();
    assert(seq!['-'].skip(1) =~= none);
    assert(template::lower(none).len() == 0);
    assert(template::lower(seq!['.']).len() == 1);
    assert(template::lower(seq!['e', '5']).len() == 2);
    assert(none.skip(0) =~= none);
    let dot = seq!['.'];
    text::lemma_run_len_is(dot, digit(), 0);
    assert(dot.skip(0) =~= dot);
    assert(dot.skip(1) =~= none);
    let e = seq!['e', '5'];
    text::lemma_run_len_is(e, digit(), 0);
}

/// A text that is read as a number and is no word is a sign or none, digits with a point or
/// without one, and an exponent or none, with a digit before the exponent: the parts in
/// their order make up the text.
pub proof fn law_floats_are_decimal_numbers(s: Seq<char>) -> (parts: (
    Seq<char>,
    Seq<char>,
    bool,
    Seq<char>,
    Seq<char>,
))
    requires
        is_float_text(s),
        template::lower(unsigned(s)) != "inf"@,
        template::lower(unsigned(s)) != "infinity"@,
        template::lower(unsigned(s)) != "nan"@,
    ensures
        s == parts.0 + parts.1 + (if parts.2 {
            seq!['.']
        } else {
            Seq::<char>::empty()
        }) + parts.3 + parts.4,
        parts.0 == Seq::<char>::empty() || parts.0 == seq!['+'] || parts.0 == seq!['-'],
        forall|i: int|
            0 <= i < parts.1.len() ==> '0' <= #[trigger] parts.1[i] && parts.1[i] <= '9',
        forall|i: int|
            0 <= i < parts.3.len() ==> '0' <= #[trigger] parts.3[i] && parts.3[i] <= '9',
        parts.1.len() + parts.3.len() > 0,
        !parts.2 ==> parts.3.len() == 0,
        parts.4.len() > 0 ==> (parts.4[0] == 'e' || parts.4[0] == 'E') && parts.4.len() > 1 && ('0'
            <= parts.4.last() && parts.4.last() <= '9'),
        forall|i: int|
            1 <= i < parts.4.len() ==> ('0' <= #[trigger] parts.4[i] && parts.4[i] <= '9') || (i == 1
                && (parts.4[1] == '+' || parts.4[1] == '-')),
{
    let body = unsigned(s);
    let sign = if body.len() == s.len() {
        Seq::<char>::empty()
    } else {
        seq![s[0]]
    };
    let n = text::run_len(body, digit()) as int;
    text::lemma_run_len(body, digit());
    let whole = body.take(n);
    let rest = body.skip(n);
    assert forall|i: int| 0 <= i < whole.len() implies '0' <= #[trigger] whole[i] && whole[i]
        <= '9' by {
        assert(digit()(body[i]));
    }
    if rest.len() > 0 && rest[0] == '.' {
        let after = rest.skip(1);
        let m = text::run_len(after, digit()) as int;
        text::lemma_run_len(after, digit());
        let fraction = after.take(m);
        let exponent = after.skip(m);
        assert forall|i: int| 0 <= i < fraction.len() implies '0' <= #[trigger] fraction[i]
            && fraction[i] <= '9' by {
            assert(digit()(after[i]));
        }
        lemma_exponent_has(exponent);
        assert(s =~= sign + whole + seq!['.'] + fraction + exponent);
        (sign, whole, true, fraction, exponent)
    } else {
        lemma_exponent_has(rest);
        let none = Seq::<char>::empty();
        assert(s =~= sign + whole + none + none + rest);
        (sign, whole, false, none, rest)
    }
}

proof fn lemma_exponent_has(e: Seq<char>)
    requires
        is_exponent(e),
    ensures
        e.len() > 0 ==> (e[0] == 'e' || e[0] == 'E') && e.len() > 1 && ('0' <= e.last() && e.last()
            <= '9'),
        forall|i: int|
            1 <= i < e.len() ==> ('0' <= #[trigger] e[i] && e[i] <= '9') || (i == 1 && (e[1] == '+'
                || e[1] == '-')),
{
    if e.len() > 0 {
        let t = e.skip(1);
        let digits = unsigned(t);
        let d = t.len() - digits.len();
        assert(digits.last() == e.last());
        assert(decimal::is_digit(digits[digits.len() - 1]));
        assert forall|i: int| 1 <= i < e.len() implies ('0' <= #[trigger] e[i] && e[i] <= '9') || (i
            == 1 && (e[1] == '+' || e[1] == '-')) by {
            assert(t[i - 1] == e[i]);
            if i - 1 - d >= 0 {
                assert(digits[i - 1 - d] == e[i]);
                assert(decimal::is_digit(digits[i - 1 - d]));
            }
        }
    }
}

} // verus!
