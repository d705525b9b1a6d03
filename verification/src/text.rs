//! Texts: the parts of a line that parsers cut out, and numbers in decimal.
//!
//! A text is modelled as the sequence of its code points.

use vstd::prelude::*;

use crate::order::{order_of_texts, Order};

verus! {

/// `String::push` appends one character.
pub assume_specification[ String::push ](s: &mut String, c: char)
    ensures
        final(s)@ == old(s)@.push(c),
;

/// The code points of a text.
pub fn to_chars(s: &str) -> (r: Vec<char>)
    ensures
        r@ == s@,
{
    let mut out: Vec<char> = Vec::new();
    for c in it: s.chars()
        invariant
            out@ == it.seq().take(it.index()),
            it.seq() == s@,
    {
        out.push(c);
    }
    out
}

/// Whether two texts are the same.
pub fn same_text(a: &str, b: &str) -> (r: bool)
    ensures
        r == (a@ == b@),
{
    match order_of_texts(a, b) {
        Order::Equal => true,
        _ => false,
    }
}

/// Writes code points as a text.
pub fn from_chars(chars: &[char]) -> (r: String)
    ensures
        r@ == chars@,
{
    let mut out: String = String::new();
    let mut i: usize = 0;
    while i < chars.len()
        invariant
            i <= chars@.len(),
            out@ == chars@.take(i as int),
        decreases chars.len() - i,
    {
        out.push(chars[i]);
        i = i + 1;
        assert(chars@.take(i as int) =~= chars@.take(i - 1).push(chars@[i - 1]));
    }
    assert(chars@.take(i as int) =~= chars@);
    out
}

/// Joins two texts.
pub fn concat(a: &str, b: &str) -> (r: String)
    ensures
        r@ == a@ + b@,
{
    let mut out: String = a.to_string();
    out.append(b);
    out
}

/// Joins three texts.
pub fn concat3(a: &str, b: &str, c: &str) -> (r: String)
    ensures
        r@ == a@ + b@ + c@,
{
    let mut out: String = a.to_string();
    out.append(b);
    out.append(c);
    out
}

// ---- leading runs ----

/// The length of the longest prefix of `s` whose characters all satisfy `p`.
pub open spec fn run_len(s: Seq<char>, p: spec_fn(char) -> bool) -> nat
    decreases s.len(),
{
    if s.len() == 0 || !p(s[0]) {
        0
    } else {
        1 + run_len(s.drop_first(), p)
    }
}

pub proof fn lemma_run_len(s: Seq<char>, p: spec_fn(char) -> bool)
    ensures
        run_len(s, p) <= s.len(),
        forall|i: int| 0 <= i < run_len(s, p) ==> p(#[trigger] s[i]),
        run_len(s, p) < s.len() ==> !p(s[run_len(s, p) as int]),
    decreases s.len(),
{
    if s.len() > 0 && p(s[0]) {
        let t = s.drop_first();
        lemma_run_len(t, p);
        assert forall|i: int| 0 <= i < run_len(s, p) implies p(#[trigger] s[i]) by {
            if i > 0 {
                assert(s[i] == t[i - 1]);
            }
        }
        if run_len(s, p) < s.len() {
            assert(s[run_len(s, p) as int] == t[run_len(t, p) as int]);
        }
    }
}

pub proof fn lemma_run_len_is(s: Seq<char>, p: spec_fn(char) -> bool, n: int)
    requires
        0 <= n <= s.len(),
        forall|i: int| 0 <= i < n ==> p(#[trigger] s[i]),
        n < s.len() ==> !p(s[n]),
    ensures
        run_len(s, p) == n,
{
    lemma_run_len(s, p);
    let m = run_len(s, p) as int;
    if m < n {
        assert(p(s[m]));
    } else if n < m {
        assert(p(s[n]));
    }
}

pub open spec fn other_than(c: char) -> spec_fn(char) -> bool {
    |x: char| x != c
}

/// The index of the first `c` in `s`, or the length of `s` if there is none.
pub open spec fn position(s: Seq<char>, c: char) -> nat {
    run_len(s, other_than(c))
}

/// The first place of a character in a text; the text's length if it is absent.
pub fn find_from(s: &[char], c: char) -> (r: usize)
    ensures
        r == position(s@, c),
        r <= s@.len(),
{
    let mut i: usize = 0;
    while i < s.len() && s[i] != c
        invariant
            i <= s@.len(),
            forall|j: int| 0 <= j < i ==> s@[j] != c,
        decreases s.len() - i,
    {
        i = i + 1;
    }
    proof {
        lemma_run_len_is(s@, other_than(c), i as int);
    }
    i
}

/// The parts of `s` before and after its first `c`, if it has one.
pub open spec fn cut_at(s: Seq<char>, c: char) -> Option<(Seq<char>, Seq<char>)> {
    let p = position(s, c) as int;
    if p < s.len() {
        Some((s.take(p), s.skip(p + 1)))
    } else {
        None
    }
}

/// Cuts a text at the first `c`.
pub fn split_once<'a>(s: &'a str, c: char) -> (r: Option<(&'a str, &'a str)>)
    ensures
        match r {
            Some((a, b)) => cut_at(s@, c) == Some((a@, b@)),
            None => cut_at(s@, c) is None,
        },
{
    let chars: Vec<char> = to_chars(s);
    let p: usize = find_from(&chars, c);
    if p < chars.len() {
        Some((s.substring_char(0, p), s.substring_char(p + 1, chars.len())))
    } else {
        None
    }
}

/// The pieces of `s` between the `c`s.
pub open spec fn pieces(s: Seq<char>, c: char) -> Seq<Seq<char>>
    decreases s.len(),
{
    let p = position(s, c) as int;
    if 0 <= p < s.len() {
        seq![s.take(p)] + pieces(s.skip(p + 1), c)
    } else {
        seq![s]
    }
}

/// The views of a list of texts.
pub open spec fn views(v: Seq<&str>) -> Seq<Seq<char>> {
    v.map_values(|t: &str| t@)
}

/// Splits a text at every `c`.
pub fn split<'a>(s: &'a str, c: char) -> (r: Vec<&'a str>)
    ensures
        views(r@) == pieces(s@, c),
{
    let mut out: Vec<&'a str> = Vec::new();
    let mut rest: &'a str = s;
    loop
        invariant
            views(out@) + pieces(rest@, c) =~= pieces(s@, c),
        decreases rest@.len(),
    {
        let ghost before = out@;
        let ghost prev = rest@;
        match split_once(rest, c) {
            Some((head, tail)) => {
                proof {
                    lemma_run_len(prev, other_than(c));
                }
                out.push(head);
                rest = tail;
                assert(views(out@) =~= views(before).push(head@));
            },
            None => {
                out.push(rest);
                assert(views(out@) =~= views(before).push(rest@));
                return out;
            },
        }
    }
}

// ---- white space ----

/// The characters of the Unicode property White_Space.
pub open spec fn is_white(c: char) -> bool {
    let n = c as u32;
    ||| 0x9 <= n <= 0xd
    ||| n == 0x20
    ||| n == 0x85
    ||| n == 0xa0
    ||| n == 0x1680
    ||| 0x2000 <= n <= 0x200a
    ||| n == 0x2028
    ||| n == 0x2029
    ||| n == 0x202f
    ||| n == 0x205f
    ||| n == 0x3000
}

/// Whether a character is white space.
pub fn is_white_space(c: char) -> (r: bool)
    ensures
        r == is_white(c),
{
    let n: u32 = c as u32;
    (0x9 <= n && n <= 0xd) || n == 0x20 || n == 0x85 || n == 0xa0 || n == 0x1680 || (0x2000 <= n
        && n <= 0x200a) || n == 0x2028 || n == 0x2029 || n == 0x202f || n == 0x205f || n == 0x3000
}

pub open spec fn white() -> spec_fn(char) -> bool {
    |x: char| is_white(x)
}

pub open spec fn not_white() -> spec_fn(char) -> bool {
    |x: char| !is_white(x)
}

/// `s` without its leading white space.
pub open spec fn trimmed_start(s: Seq<char>) -> Seq<char> {
    s.skip(run_len(s, white()) as int)
}

/// `s` without its trailing white space.
pub open spec fn trimmed_end(s: Seq<char>) -> Seq<char>
    decreases s.len(),
{
    if s.len() > 0 && is_white(s.last()) {
        trimmed_end(s.drop_last())
    } else {
        s
    }
}

/// `s` without the white space at its two ends.
pub open spec fn trimmed(s: Seq<char>) -> Seq<char> {
    trimmed_end(trimmed_start(s))
}

fn white_run(chars: &[char]) -> (r: usize)
    ensures
        r == run_len(chars@, white()),
        r <= chars@.len(),
{
    let mut i: usize = 0;
    while i < chars.len() && is_white_space(chars[i])
        invariant
            i <= chars@.len(),
            forall|j: int| 0 <= j < i ==> is_white(chars@[j]),
        decreases chars.len() - i,
    {
        i = i + 1;
    }
    proof {
        lemma_run_len_is(chars@, white(), i as int);
    }
    i
}

/// Drops leading white space.
pub fn trim_start<'a>(s: &'a str) -> (r: &'a str)
    ensures
        r@ == trimmed_start(s@),
{
    let chars: Vec<char> = to_chars(s);
    let i: usize = white_run(&chars);
    let r: &'a str = s.substring_char(i, chars.len());
    assert(r@ =~= s@.skip(i as int));
    r
}

/// Drops trailing white space.
pub fn trim_end<'a>(s: &'a str) -> (r: &'a str)
    ensures
        r@ == trimmed_end(s@),
{
    let chars: Vec<char> = to_chars(s);
    let mut j: usize = chars.len();
    assert(s@.take(j as int) =~= s@);
    while j > 0 && is_white_space(chars[j - 1])
        invariant
            j <= s@.len(),
            chars@ == s@,
            trimmed_end(s@.take(j as int)) == trimmed_end(s@),
        decreases j,
    {
        assert(s@.take(j as int).drop_last() =~= s@.take(j - 1));
        j = j - 1;
    }
    let r: &'a str = s.substring_char(0, j);
    assert(r@ =~= s@.take(j as int));
    r
}

/// Drops the white space at both ends.
pub fn trim<'a>(s: &'a str) -> (r: &'a str)
    ensures
        r@ == trimmed(s@),
{
    trim_end(trim_start(s))
}

/// Trimming leaves a text alone whose ends are no white space.
pub proof fn lemma_trimmed_is(s: Seq<char>)
    requires
        s.len() > 0 ==> !is_white(s[0]) && !is_white(s.last()),
    ensures
        trimmed(s) == s,
{
    lemma_run_len_is(s, white(), 0);
    assert(s.skip(0) =~= s);
}

/// A text that does not start with white space keeps its start.
pub proof fn lemma_trimmed_start_is(s: Seq<char>)
    requires
        s.len() > 0 ==> !is_white(s[0]),
    ensures
        trimmed_start(s) == s,
{
    lemma_run_len_is(s, white(), 0);
    assert(s.skip(0) =~= s);
}

/// A trimmed text has no white space at its ends.
pub proof fn lemma_trimmed_ends(s: Seq<char>)
    requires
        trimmed(s) == s,
    ensures
        s.len() > 0 ==> !is_white(s[0]) && !is_white(s.last()),
{
    lemma_run_len(s, white());
    let t = trimmed_start(s);
    lemma_trimmed_end_len(t);
    if s.len() > 0 {
        if is_white(s[0]) {
            assert(t.len() < s.len());
        }
        if is_white(s.last()) {
            assert(t.len() == s.len());
            assert(t =~= s);
            lemma_trimmed_end_len(t.drop_last());
        }
    }
}

proof fn lemma_trimmed_end_is_prefix(s: Seq<char>)
    ensures
        trimmed_end(s).len() <= s.len(),
        trimmed_end(s) == s.take(trimmed_end(s).len() as int),
    decreases s.len(),
{
    if s.len() > 0 && is_white(s.last()) {
        lemma_trimmed_end_is_prefix(s.drop_last());
        assert(s.drop_last().take(trimmed_end(s).len() as int) =~= s.take(
            trimmed_end(s).len() as int,
        ));
    } else {
        assert(s.take(s.len() as int) =~= s);
    }
}

/// A trimmed text does not start with white space.
pub proof fn lemma_trimmed_starts(s: Seq<char>)
    ensures
        trimmed(s).len() > 0 ==> !is_white(trimmed(s)[0]),
{
    lemma_run_len(s, white());
    let t = trimmed_start(s);
    lemma_trimmed_end_is_prefix(t);
    if trimmed(s).len() > 0 {
        assert(trimmed(s)[0] == t[0]);
        assert(t[0] == s[run_len(s, white()) as int]);
        assert(!white()(t[0]));
    }
}

proof fn lemma_trimmed_end_len(s: Seq<char>)
    ensures
        trimmed_end(s).len() <= s.len(),
    decreases s.len(),
{
    if s.len() > 0 && is_white(s.last()) {
        lemma_trimmed_end_len(s.drop_last());
    }
}

/// The maximal runs of characters other than white space.
pub open spec fn words(s: Seq<char>) -> Seq<Seq<char>>
    decreases s.len(),
{
    let t = trimmed_start(s);
    let n = run_len(t, not_white()) as int;
    if 0 < n <= t.len() <= s.len() {
        seq![t.take(n)] + words(t.skip(n))
    } else {
        seq![]
    }
}

/// Splits a text at white space.
pub fn split_words<'a>(s: &'a str) -> (r: Vec<&'a str>)
    ensures
        views(r@) == words(s@),
{
    let mut out: Vec<&'a str> = Vec::new();
    let mut rest: &'a str = s;
    loop
        invariant
            views(out@) + words(rest@) =~= words(s@),
        decreases rest@.len(),
    {
        let ghost before = out@;
        let ghost prev = rest@;
        let t: &'a str = trim_start(rest);
        let chars: Vec<char> = to_chars(t);
        let mut n: usize = 0;
        while n < chars.len() && !is_white_space(chars[n])
            invariant
                n <= chars@.len(),
                chars@ == t@,
                forall|j: int| 0 <= j < n ==> !is_white(t@[j]),
            decreases chars.len() - n,
        {
            n = n + 1;
        }
        proof {
            lemma_run_len_is(t@, not_white(), n as int);
            lemma_run_len(prev, white());
        }
        if n == 0 {
            return out;
        }
        let word: &'a str = t.substring_char(0, n);
        rest = t.substring_char(n, chars.len());
        out.push(word);
        assert(views(out@) =~= views(before).push(word@));
        assert(word@ =~= t@.take(n as int));
        assert(rest@ =~= t@.skip(n as int));
    }
}

// ---- prefixes, suffixes, substrings ----

/// `s` without its first character, if that is `c`.
pub open spec fn without_first(s: Seq<char>, c: char) -> Option<Seq<char>> {
    if s.len() > 0 && s[0] == c {
        Some(s.skip(1))
    } else {
        None
    }
}

/// `s` without its last character, if that is `c`.
pub open spec fn without_last(s: Seq<char>, c: char) -> Option<Seq<char>> {
    if s.len() > 0 && s.last() == c {
        Some(s.take(s.len() - 1))
    } else {
        None
    }
}

/// Takes one leading `c` off a text.
pub fn strip_first<'a>(s: &'a str, c: char) -> (r: Option<&'a str>)
    ensures
        match r {
            Some(t) => without_first(s@, c) == Some(t@),
            None => without_first(s@, c) is None,
        },
{
    let n: usize = s.unicode_len();
    if n > 0 && s.get_char(0) == c {
        let t: &'a str = s.substring_char(1, n);
        assert(t@ =~= s@.skip(1));
        Some(t)
    } else {
        None
    }
}

/// Takes one trailing `c` off a text.
pub fn strip_last<'a>(s: &'a str, c: char) -> (r: Option<&'a str>)
    ensures
        match r {
            Some(t) => without_last(s@, c) == Some(t@),
            None => without_last(s@, c) is None,
        },
{
    let n: usize = s.unicode_len();
    if n > 0 && s.get_char(n - 1) == c {
        let t: &'a str = s.substring_char(0, n - 1);
        assert(t@ =~= s@.take(s@.len() - 1));
        Some(t)
    } else {
        None
    }
}

/// What is left of `s` after `prefix`, if it starts with it.
pub open spec fn after_prefix(s: Seq<char>, prefix: Seq<char>) -> Option<Seq<char>> {
    if prefix.len() <= s.len() && s.take(prefix.len() as int) == prefix {
        Some(s.skip(prefix.len() as int))
    } else {
        None
    }
}

/// Takes a leading text off another.
pub fn strip_prefix<'a>(s: &'a str, prefix: &str) -> (r: Option<&'a str>)
    ensures
        match r {
            Some(t) => after_prefix(s@, prefix@) == Some(t@),
            None => after_prefix(s@, prefix@) is None,
        },
{
    let n: usize = s.unicode_len();
    let m: usize = prefix.unicode_len();
    if m <= n {
        let head: &'a str = s.substring_char(0, m);
        assert(head@ =~= s@.take(m as int));
        if same_text(head, prefix) {
            let t: &'a str = s.substring_char(m, n);
            assert(t@ =~= s@.skip(m as int));
            return Some(t);
        }
    }
    None
}

/// Whether `s` starts with `prefix`.
pub fn starts_with(s: &str, prefix: &str) -> (r: bool)
    ensures
        r == (after_prefix(s@, prefix@) is Some),
{
    strip_prefix(s, prefix).is_some()
}

/// `needle` stands somewhere in `s`.
pub open spec fn has_substring(s: Seq<char>, needle: Seq<char>) -> bool {
    exists|i: int|
        0 <= i <= s.len() - needle.len() && #[trigger] s.subrange(i, i + needle.len()) == needle
}

/// Whether a text stands somewhere in another.
pub fn contains(s: &str, needle: &str) -> (r: bool)
    ensures
        r == has_substring(s@, needle@),
{
    let n: usize = s.unicode_len();
    let m: usize = needle.unicode_len();
    if m > n {
        return false;
    }
    let mut i: usize = 0;
    while i <= n - m
        invariant
            n == s@.len(),
            m == needle@.len(),
            m <= n,
            i <= n - m,
            forall|j: int|
                0 <= j < i ==> #[trigger] s@.subrange(j, j + m) != needle@,
        decreases n - m + 1 - i,
    {
        if same_text(s.substring_char(i, i + m), needle) {
            return true;
        }
        if i == n - m {
            return false;
        }
        i = i + 1;
    }
    false
}

// ---- lines ----

/// The lines of a text: each ends at a line feed, which is dropped together with a
/// carriage return before it; nothing after the last line feed is no line.
pub open spec fn text_lines(s: Seq<char>) -> Seq<Seq<char>>
    decreases s.len(),
{
    if s.len() == 0 {
        seq![]
    } else {
        match cut_at(s, '\n') {
            Some((line, rest)) if rest.len() < s.len() => {
                let bare = match without_last(line, '\r') {
                    Some(t) => t,
                    None => line,
                };
                seq![bare] + text_lines(rest)
            },
            _ => seq![s],
        }
    }
}

/// Splits a text into its lines.
pub fn lines<'a>(s: &'a str) -> (r: Vec<&'a str>)
    ensures
        views(r@) == text_lines(s@),
{
    let mut out: Vec<&'a str> = Vec::new();
    let mut rest: &'a str = s;
    while rest.unicode_len() > 0
        invariant
            views(out@) + text_lines(rest@) =~= text_lines(s@),
        decreases rest@.len(),
    {
        let ghost before = out@;
        match split_once(rest, '\n') {
            Some((line, tail)) => {
                let bare: &'a str = match strip_last(line, '\r') {
                    Some(t) => t,
                    None => line,
                };
                proof {
                    lemma_run_len(rest@, other_than('\n'));
                }
                out.push(bare);
                assert(views(out@) =~= views(before).push(bare@));
                rest = tail;
            },
            None => {
                out.push(rest);
                assert(views(out@) =~= views(before).push(rest@));
                return out;
            },
        }
    }
    out
}

// ---- pieces up to a number ----

/// The pieces of `s` between the first `c`s, at most `n` of them; the last holds what is
/// left.
pub open spec fn pieces_up_to(s: Seq<char>, c: char, n: nat) -> Seq<Seq<char>>
    decreases n,
{
    if n <= 1 {
        seq![s]
    } else {
        match cut_at(s, c) {
            Some((head, tail)) => seq![head] + pieces_up_to(tail, c, (n - 1) as nat),
            None => seq![s],
        }
    }
}

/// Splits a text at the first `c`s into at most `n` pieces.
pub fn split_up_to<'a>(s: &'a str, c: char, n: usize) -> (r: Vec<&'a str>)
    requires
        n >= 1,
    ensures
        views(r@) == pieces_up_to(s@, c, n as nat),
        1 <= r@.len() <= n,
{
    let mut out: Vec<&'a str> = Vec::new();
    let mut rest: &'a str = s;
    let mut left: usize = n;
    while left > 1
        invariant
            1 <= left <= n,
            out@.len() + left == n,
            views(out@) + pieces_up_to(rest@, c, left as nat) =~= pieces_up_to(s@, c, n as nat),
        decreases left,
    {
        let ghost before = out@;
        match split_once(rest, c) {
            Some((head, tail)) => {
                out.push(head);
                rest = tail;
                left = left - 1;
                assert(views(out@) =~= views(before).push(head@));
            },
            None => {
                out.push(rest);
                assert(views(out@) =~= views(before).push(rest@));
                return out;
            },
        }
    }
    let ghost before = out@;
    out.push(rest);
    assert(views(out@) =~= views(before).push(rest@));
    out
}

/// `s` between double quotes.
pub open spec fn unquoted(s: Seq<char>) -> Option<Seq<char>> {
    match without_first(s, '"') {
        Some(v) => without_last(v, '"'),
        None => None,
    }
}

/// Takes the double quotes off a text.
pub fn strip_quotes<'a>(s: &'a str) -> (r: Option<&'a str>)
    ensures
        match r {
            Some(t) => unquoted(s@) == Some(t@),
            None => unquoted(s@) is None,
        },
{
    match strip_first(s, '"') {
        Some(v) => strip_last(v, '"'),
        None => None,
    }
}

/// How `{:?}` writes a text.
pub uninterp spec fn debug_text(s: Seq<char>) -> Seq<char>;

/// `<str as Debug>::fmt` through `format!`: the text in quotes, with its special
/// characters escaped.
#[verifier::external_body]
pub(crate) fn quoted(s: &str) -> (r: String)
    ensures
        r@ == debug_text(s@),
{
    format!("{s:?}")
}

/// `String::from_utf8`: the text whose UTF-8 bytes these are, if they are valid UTF-8.
#[verifier::external_body]
pub(crate) fn from_utf8(bytes: Vec<u8>) -> (r: Option<String>)
    ensures
        match r {
            Some(s) => vstd::utf8::valid_utf8(bytes@) && vstd::utf8::encode_utf8(s@) == bytes@,
            None => !vstd::utf8::valid_utf8(bytes@),
        },
{
    String::from_utf8(bytes).ok()
}

// ---- laws ----

/// A cut takes a text apart at the first of the characters, which it drops: the part before
/// holds none of them, and the parts make up the text again.
pub proof fn law_cut_at_the_first(a: Seq<char>, c: char, b: Seq<char>, s: Seq<char>)
    requires
        !a.contains(c),
    ensures
        position(a + seq![c] + b, c) == a.len(),
        cut_at(a + seq![c] + b, c) == Some((a, b)),
        cut_at(a, c) is None,
        position(a, c) == a.len(),
        cut_at(s, c) is Some <==> s.contains(c),
        cut_at(s, c) is Some ==> s == (cut_at(s, c)->0).0 + seq![c] + (cut_at(s, c)->0).1
            && !(cut_at(s, c)->0).0.contains(c),
{
    let t = a + seq![c] + b;
    assert forall|i: int| 0 <= i < a.len() implies other_than(c)(#[trigger] t[i]) by {
        assert(t[i] == a[i]);
        assert(a.contains(a[i]));
    }
    assert(t[a.len() as int] == c);
    lemma_run_len_is(t, other_than(c), a.len() as int);
    assert(t.take(a.len() as int) =~= a);
    assert(t.skip(a.len() as int + 1) =~= b);
    assert forall|i: int| 0 <= i < a.len() implies other_than(c)(#[trigger] a[i]) by {
        assert(a.contains(a[i]));
    }
    lemma_run_len_is(a, other_than(c), a.len() as int);
    lemma_run_len(s, other_than(c));
    let p = position(s, c) as int;
    if p < s.len() {
        assert(!other_than(c)(s[p]));
        assert(s =~= s.take(p) + seq![c] + s.skip(p + 1));
        assert forall|i: int| 0 <= i < p implies #[trigger] s.take(p)[i] != c by {
            assert(other_than(c)(s[i]));
        }
    } else {
        assert forall|i: int| 0 <= i < s.len() implies #[trigger] s[i] != c by {
            assert(other_than(c)(s[i]));
        }
    }
}

/// A text is split at every one of the characters: what stands before the first is the
/// first piece, and the rest is split alike.
pub proof fn law_split_at_every_one(a: Seq<char>, c: char, b: Seq<char>, n: nat)
    requires
        !a.contains(c),
    ensures
        pieces(a, c) == seq![a],
        pieces(a + seq![c] + b, c) == seq![a] + pieces(b, c),
        pieces_up_to(a, c, n) == seq![a],
        pieces_up_to(b, c, 1) == seq![b],
        n >= 2 ==> pieces_up_to(a + seq![c] + b, c, n) == seq![a] + pieces_up_to(
            b,
            c,
            (n - 1) as nat,
        ),
{
    law_cut_at_the_first(a, c, b, b);
    let t = a + seq![c] + b;
    let p = position(t, c) as int;
    assert(t.take(p) =~= a);
    assert(t.skip(p + 1) =~= b);
    assert(position(a, c) == a.len());
}

/// The characters that count as white space.
pub proof fn law_white_space(c: char)
    ensures
        is_white(c) <==> c == ' ' || c == '\t' || c == '\n' || c == '\r' || c == '\u{b}' || c
            == '\u{c}' || c == '\u{85}' || c == '\u{a0}' || c == '\u{1680}' || ('\u{2000}' <= c && c
            <= '\u{200a}') || c == '\u{2028}' || c == '\u{2029}' || c == '\u{202f}' || c
            == '\u{205f}' || c == '\u{3000}',
{
}

/// Trimming takes off all the white space at the two ends and nothing else: around a text
/// whose ends are none, any white space is taken off again.
pub proof fn law_trimming_takes_the_ends_off(
    before: Seq<char>,
    s: Seq<char>,
    after: Seq<char>,
)
    requires
        forall|i: int| 0 <= i < before.len() ==> is_white(#[trigger] before[i]),
        forall|i: int| 0 <= i < after.len() ==> is_white(#[trigger] after[i]),
        s.len() > 0 ==> !is_white(s[0]) && !is_white(s.last()),
    ensures
        trimmed(before + s + after) == s,
        trimmed_start(before + s) == s,
        trimmed_end(s + after) == s,
{
    let t = before + s + after;
    lemma_trimmed_end_of(s, after);
    lemma_trimmed_start_of(before, s);
    if s.len() > 0 {
        assert((s + after)[0] == s[0]);
        lemma_trimmed_start_of(before, s + after);
        assert(before + (s + after) =~= t);
    } else {
        assert(t =~= before + after);
        assert forall|i: int| 0 <= i < t.len() implies white()(#[trigger] t[i]) by {
            if i < before.len() {
                assert(t[i] == before[i]);
            } else {
                assert(t[i] == after[i - before.len()]);
            }
        }
        lemma_run_len_is(t, white(), t.len() as int);
        assert(trimmed_start(t) =~= s);
    }
}

proof fn lemma_trimmed_start_of(before: Seq<char>, s: Seq<char>)
    requires
        forall|i: int| 0 <= i < before.len() ==> is_white(#[trigger] before[i]),
        s.len() > 0 ==> !is_white(s[0]),
    ensures
        trimmed_start(before + s) == s,
{
    let t = before + s;
    assert forall|i: int| 0 <= i < before.len() implies white()(#[trigger] t[i]) by {
        assert(t[i] == before[i]);
    }
    if s.len() > 0 {
        assert(t[before.len() as int] == s[0]);
    }
    lemma_run_len_is(t, white(), before.len() as int);
    assert(t.skip(before.len() as int) =~= s);
}

proof fn lemma_trimmed_end_of(s: Seq<char>, after: Seq<char>)
    requires
        forall|i: int| 0 <= i < after.len() ==> is_white(#[trigger] after[i]),
        s.len() > 0 ==> !is_white(s.last()),
    ensures
        trimmed_end(s + after) == s,
    decreases after.len(),
{
    if after.len() == 0 {
        assert(s + after =~= s);
    } else {
        assert((s + after).drop_last() =~= s + after.drop_last());
        assert((s + after).last() == after[after.len() - 1]);
        lemma_trimmed_end_of(s, after.drop_last());
    }
}

/// Words are what stands between white space: each as a whole, in order, and none is empty.
pub proof fn law_words_stand_between_white_space(
    before: Seq<char>,
    word: Seq<char>,
    rest: Seq<char>,
)
    requires
        forall|i: int| 0 <= i < before.len() ==> is_white(#[trigger] before[i]),
        word.len() > 0,
        forall|i: int| 0 <= i < word.len() ==> !is_white(#[trigger] word[i]),
        rest.len() > 0 ==> is_white(rest[0]),
    ensures
        words(before + word + rest) == seq![word] + words(rest),
        words(before) == Seq::<Seq<char>>::empty(),
{
    let t = before + word + rest;
    let tail = word + rest;
    assert(tail[0] == word[0]);
    lemma_trimmed_start_of(before, tail);
    assert(before + tail =~= t);
    assert forall|i: int| 0 <= i < word.len() implies not_white()(#[trigger] tail[i]) by {
        assert(tail[i] == word[i]);
    }
    if rest.len() > 0 {
        assert(tail[word.len() as int] == rest[0]);
    }
    lemma_run_len_is(tail, not_white(), word.len() as int);
    assert(tail.take(word.len() as int) =~= word);
    assert(tail.skip(word.len() as int) =~= rest);
    let none = Seq::<char>::empty();
    lemma_trimmed_start_of(before, none);
    assert(before + none =~= before);
    assert(run_len(none, not_white()) == 0);
}

/// A prefix, a first or a last character is taken off exactly where the text has it, and
/// what is left is the rest of the text.
pub proof fn law_prefixes_are_taken_off(s: Seq<char>, prefix: Seq<char>, rest: Seq<char>, c: char)
    ensures
        after_prefix(prefix + rest, prefix) == Some(rest),
        after_prefix(s, prefix) is Some ==> s == prefix + after_prefix(s, prefix)->0,
        without_first(seq![c] + rest, c) == Some(rest),
        without_first(s, c) is Some ==> s == seq![c] + without_first(s, c)->0,
        without_last(rest.push(c), c) == Some(rest),
        without_last(s, c) is Some ==> s == without_last(s, c)->0.push(c),
        unquoted(seq!['"'] + rest + seq!['"']) == Some(rest),
        unquoted(s) is Some ==> s == seq!['"'] + unquoted(s)->0 + seq!['"'],
{
    assert((prefix + rest).take(prefix.len() as int) =~= prefix);
    assert((prefix + rest).skip(prefix.len() as int) =~= rest);
    if after_prefix(s, prefix) is Some {
        assert(s =~= s.take(prefix.len() as int) + s.skip(prefix.len() as int));
    }
    assert((seq![c] + rest).skip(1) =~= rest);
    if without_first(s, c) is Some {
        assert(s =~= seq![c] + s.skip(1));
    }
    assert(rest.push(c).take(rest.len() as int) =~= rest);
    if without_last(s, c) is Some {
        assert(s =~= s.take(s.len() - 1).push(c));
    }
    let q = seq!['"'] + rest + seq!['"'];
    assert(q.skip(1) =~= rest.push('"'));
    assert(rest.push('"').take(rest.len() as int) =~= rest);
    if unquoted(s) is Some {
        let v = s.skip(1);
        assert(s =~= seq!['"'] + v.take(v.len() - 1) + seq!['"']);
    }
}

/// A text stands in another exactly where the other is it with some text before it and some
/// behind it.
pub proof fn law_substrings_stand_between(
    s: Seq<char>,
    needle: Seq<char>,
    a: Seq<char>,
    b: Seq<char>,
)
    ensures
        has_substring(a + needle + b, needle),
        has_substring(s, needle) ==> exists|x: Seq<char>, y: Seq<char>|
            s == #[trigger] (x + needle + y),
{
    let t = a + needle + b;
    let n = a.len() as int;
    assert(t.subrange(n, n + needle.len()) =~= needle);
    if has_substring(s, needle) {
        let i = choose|i: int|
            0 <= i <= s.len() - needle.len() && #[trigger] s.subrange(i, i + needle.len())
                == needle;
        assert(s =~= s.take(i) + needle + s.skip(i + needle.len()));
    }
}

/// A line ends at its line feed; a carriage return before it goes with it, one elsewhere
/// stays. What follows the last line feed is a line if there is any of it.
pub proof fn law_lines_end_at_line_feeds(line: Seq<char>, rest: Seq<char>)
    requires
        !line.contains('\n'),
    ensures
        text_lines(Seq::<char>::empty()) == Seq::<Seq<char>>::empty(),
        line.len() > 0 ==> text_lines(line) == seq![line],
        line.len() == 0 || line.last() != '\r' ==> text_lines(line + seq!['\n'] + rest) == seq![
            line,
        ] + text_lines(rest),
        text_lines(line.push('\r') + seq!['\n'] + rest) == seq![line] + text_lines(rest),
{
    law_cut_at_the_first(line, '\n', rest, rest);
    let carried = line.push('\r');
    assert(!carried.contains('\n')) by {
        assert forall|i: int| 0 <= i < carried.len() implies #[trigger] carried[i] != '\n' by {
            if i < line.len() {
                assert(carried[i] == line[i]);
                assert(line.contains(line[i]));
            }
        }
    }
    law_cut_at_the_first(carried, '\n', rest, rest);
    assert(carried.take(carried.len() - 1) =~= line);
}

/// Trimming keeps what is no white space.
pub proof fn lemma_trimmed_keeps(s: Seq<char>, i: int)
    requires
        0 <= i < s.len(),
        !is_white(s[i]),
    ensures
        trimmed(s).len() > 0,
{
    lemma_run_len(s, white());
    let n = run_len(s, white()) as int;
    if n > i {
        assert(white()(s[i]));
    }
    let t = trimmed_start(s);
    assert(t[i - n] == s[i]);
    lemma_trimmed_end_keeps(t, i - n);
}

proof fn lemma_trimmed_end_keeps(s: Seq<char>, i: int)
    requires
        0 <= i < s.len(),
        !is_white(s[i]),
    ensures
        trimmed_end(s).len() > i,
    decreases s.len(),
{
    if is_white(s.last()) {
        assert(s.drop_last()[i] == s[i]);
        lemma_trimmed_end_keeps(s.drop_last(), i);
    }
}

} // verus!
