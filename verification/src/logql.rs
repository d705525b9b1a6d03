//! A small part of LogQL: `{label="value", ...}`, with an optional `|= "text"` line
//! filter.

use vstd::prelude::*;

use crate::strmap::FieldMap;
use crate::text;
use crate::text::{
    concat, concat3, find_from, is_white_space, quoted, split, split_once, strip_prefix, strip_quotes, to_chars,
    trim,
};

verus! {

/// A parsed query.
#[derive(Debug, PartialEq)]
pub struct ParsedQuery {
    pub selector: FieldMap,
    pub line_filter: Option<String>,
}

/// What one term of a label set says: nothing if it is blank, else a name and a value.
pub open spec fn label_term(part: Seq<char>) -> Result<Option<(Seq<char>, Seq<char>)>, Seq<char>> {
    let pair = text::trimmed(part);
    if pair.len() == 0 {
        Ok(None)
    } else {
        match text::cut_at(pair, '=') {
            None => Err(
                "malformed label term "@ + text::debug_text(pair) + ", expected key=\"value\""@,
            ),
            Some((key, rest)) => match text::unquoted(text::trimmed(rest)) {
                None => Err("label value must be quoted: "@ + text::debug_text(rest)),
                Some(value) => Ok(Some((text::trimmed(key), value))),
            },
        }
    }
}

/// The labels of a list of terms, later ones winning; the error of the first bad term.
pub open spec fn labels_of(parts: Seq<Seq<char>>) -> Result<Map<Seq<char>, Seq<char>>, Seq<char>>
    decreases parts.len(),
{
    if parts.len() == 0 {
        Ok(Map::empty())
    } else {
        match labels_of(parts.drop_last()) {
            Err(e) => Err(e),
            Ok(labels) => match label_term(parts.last()) {
                Err(e) => Err(e),
                Ok(None) => Ok(labels),
                Ok(Some((name, value))) => Ok(labels.insert(name, value)),
            },
        }
    }
}

/// Where a place in a label set lies.
#[derive(Debug, Clone, Copy, PartialEq, Eq, Structural)]
pub enum Place {
    /// Outside quotes.
    Outside,
    /// Behind an equals sign outside quotes, where a quote may open.
    Equals,
    /// Inside quotes.
    Inside,
    /// Behind a backslash inside quotes.
    Escaped,
    /// Behind a closing quote, where a term has to end.
    Closed,
    /// Behind a quote that opens or closes where none may: no place behind it counts as
    /// outside quotes.
    Broken,
}

/// The place behind one more character.
pub open spec fn place_behind(place: Place, c: char) -> Place {
    match place {
        Place::Outside => if c == '=' {
            Place::Equals
        } else if c == '"' {
            Place::Broken
        } else {
            Place::Outside
        },
        Place::Equals => if c == '"' {
            Place::Inside
        } else if text::is_white(c) {
            Place::Equals
        } else {
            Place::Outside
        },
        Place::Inside => if c == '"' {
            Place::Closed
        } else if c == '\\' {
            Place::Escaped
        } else {
            Place::Inside
        },
        Place::Escaped => Place::Inside,
        Place::Closed => if text::is_white(c) {
            Place::Closed
        } else if c == ',' || c == '}' {
            Place::Outside
        } else {
            Place::Broken
        },
        Place::Broken => Place::Broken,
    }
}

/// The place is outside well-placed quotes.
pub open spec fn is_bare(place: Place) -> bool {
    place is Outside || place is Equals || place is Closed
}

/// The place behind a text that starts at `place`.
pub open spec fn place_after(place: Place, s: Seq<char>) -> Place
    decreases s.len(),
{
    if s.len() == 0 {
        place
    } else {
        place_after(place_behind(place, s[0]), s.skip(1))
    }
}

/// The index of the first `c` of `s` outside quotes, or the length of `s` if there is none;
/// `s` starts at `place`.
pub open spec fn bare_position(s: Seq<char>, c: char, place: Place) -> nat
    decreases s.len(),
{
    if s.len() == 0 || (is_bare(place) && s[0] == c) {
        0
    } else {
        1 + bare_position(s.skip(1), c, place_behind(place, s[0]))
    }
}

/// The pieces of `s` between the `c`s outside quotes.
pub open spec fn bare_pieces(s: Seq<char>, c: char) -> Seq<Seq<char>>
    decreases s.len(),
{
    let p = bare_position(s, c, Place::Outside) as int;
    if 0 <= p < s.len() {
        seq![s.take(p)] + bare_pieces(s.skip(p + 1), c)
    } else {
        seq![s]
    }
}

/// Where a label set ends: at the first closing brace outside quotes behind its opening
/// brace. Where there is none, since a quote is left open or out of place, quotes count as
/// any character.
pub open spec fn closing(t: Seq<char>) -> int {
    let open = text::position(t, '{') as int;
    let first = text::position(t, '}') as int;
    let bare = open + 1 + bare_position(t.skip(open + 1), '}', Place::Outside);
    if open < first && bare < t.len() {
        bare
    } else {
        first
    }
}

/// The terms of a label set: what lies between the commas outside quotes. Where a quote is
/// left open or out of place, quotes count as any character.
pub open spec fn terms(body: Seq<char>) -> Seq<Seq<char>> {
    if is_bare(place_after(Place::Outside, body)) {
        bare_pieces(body, ',')
    } else {
        text::pieces(body, ',')
    }
}

/// The labels that a text writes between its first braces.
pub open spec fn label_set_of(s: Seq<char>) -> Result<Map<Seq<char>, Seq<char>>, Seq<char>> {
    let t = text::trimmed(s);
    let open = text::position(t, '{') as int;
    let close = closing(t);
    if open >= t.len() {
        Err("label set must start with '{', e.g. {level=\"error\"}"@)
    } else if close >= t.len() {
        Err("unterminated label set — missing '}'"@)
    } else if close < open {
        Err("malformed label set"@)
    } else {
        labels_of(terms(t.subrange(open + 1, close)))
    }
}

fn next_place(place: Place, c: char) -> (r: Place)
    ensures
        r == place_behind(place, c),
{
    match place {
        Place::Outside => if c == '=' {
            Place::Equals
        } else if c == '"' {
            Place::Broken
        } else {
            Place::Outside
        },
        Place::Equals => if c == '"' {
            Place::Inside
        } else if is_white_space(c) {
            Place::Equals
        } else {
            Place::Outside
        },
        Place::Inside => if c == '"' {
            Place::Closed
        } else if c == '\\' {
            Place::Escaped
        } else {
            Place::Inside
        },
        Place::Escaped => Place::Inside,
        Place::Closed => if is_white_space(c) {
            Place::Closed
        } else if c == ',' || c == '}' {
            Place::Outside
        } else {
            Place::Broken
        },
        Place::Broken => Place::Broken,
    }
}

fn counts_as_bare(place: Place) -> (r: bool)
    ensures
        r == is_bare(place),
{
    match place {
        Place::Outside | Place::Equals | Place::Closed => true,
        _ => false,
    }
}

/// The first place of a character outside quotes, from `from` on, which is outside quotes;
/// the text's length if there is none.
fn find_bare(s: &[char], c: char, from: usize) -> (r: usize)
    requires
        from <= s@.len(),
    ensures
        r == from + bare_position(s@.skip(from as int), c, Place::Outside),
        from <= r <= s@.len(),
{
    let mut i: usize = from;
    let mut place: Place = Place::Outside;
    assert(s@.skip(from as int).skip(0) =~= s@.skip(from as int));
    while i < s.len()
        invariant
            from <= i <= s@.len(),
            from + bare_position(s@.skip(from as int), c, Place::Outside) == i + bare_position(
                s@.skip(i as int),
                c,
                place,
            ),
        decreases s.len() - i,
    {
        if counts_as_bare(place) && s[i] == c {
            return i;
        }
        assert(s@.skip(i as int).skip(1) =~= s@.skip(i + 1));
        place = next_place(place, s[i]);
        i = i + 1;
    }
    i
}

/// Whether the quotes of a text are all in place and closed.
fn quotes_close(s: &[char]) -> (r: bool)
    ensures
        r == is_bare(place_after(Place::Outside, s@)),
{
    let mut i: usize = 0;
    let mut place: Place = Place::Outside;
    assert(s@.skip(0) =~= s@);
    while i < s.len()
        invariant
            i <= s@.len(),
            place_after(Place::Outside, s@) == place_after(place, s@.skip(i as int)),
        decreases s.len() - i,
    {
        assert(s@.skip(i as int).skip(1) =~= s@.skip(i + 1));
        place = next_place(place, s[i]);
        i = i + 1;
    }
    counts_as_bare(place)
}

/// Where a label set ends; the text's length if it does not.
fn find_closing(chars: &[char]) -> (r: usize)
    ensures
        r == closing(chars@),
        r <= chars@.len(),
        text::position(chars@, '{') < chars@.len() && r < chars@.len() ==> r != text::position(
            chars@,
            '{',
        ),
{
    let open: usize = find_from(chars, '{');
    let first: usize = find_from(chars, '}');
    proof {
        text::lemma_run_len(chars@, text::other_than('{'));
        text::lemma_run_len(chars@, text::other_than('}'));
    }
    if open < first {
        let bare: usize = find_bare(chars, '}', open + 1);
        if bare < chars.len() {
            return bare;
        }
    }
    first
}

/// Splits a text at every `c` outside quotes.
fn split_bare<'a>(s: &'a str, c: char) -> (r: Vec<&'a str>)
    ensures
        text::views(r@) == bare_pieces(s@, c),
{
    let mut out: Vec<&'a str> = Vec::new();
    let mut rest: &'a str = s;
    loop
        invariant
            text::views(out@) + bare_pieces(rest@, c) =~= bare_pieces(s@, c),
        decreases rest@.len(),
    {
        let ghost before = out@;
        let chars: Vec<char> = to_chars(rest);
        assert(chars@.skip(0) =~= rest@);
        let p: usize = find_bare(&chars, c, 0);
        if p == chars.len() {
            out.push(rest);
            assert(text::views(out@) =~= text::views(before).push(rest@));
            return out;
        }
        let head: &'a str = rest.substring_char(0, p);
        let tail: &'a str = rest.substring_char(p + 1, chars.len());
        assert(head@ =~= rest@.take(p as int));
        assert(tail@ =~= rest@.skip(p + 1));
        out.push(head);
        rest = tail;
        assert(text::views(out@) =~= text::views(before).push(head@));
    }
}

/// Splits a label set into its terms.
fn split_terms<'a>(body: &'a str) -> (r: Vec<&'a str>)
    ensures
        text::views(r@) == terms(body@),
{
    let chars: Vec<char> = to_chars(body);
    if quotes_close(&chars) {
        split_bare(body, ',')
    } else {
        split(body, ',')
    }
}

proof fn lemma_error_stays(parts: Seq<Seq<char>>, i: int)
    requires
        0 <= i <= parts.len(),
        labels_of(parts.take(i)) is Err,
    ensures
        labels_of(parts) == labels_of(parts.take(i)),
    decreases parts.len() - i,
{
    if i == parts.len() {
        assert(parts.take(i) =~= parts);
    } else {
        assert(parts.take(i + 1).drop_last() =~= parts.take(i));
        lemma_error_stays(parts, i + 1);
    }
}

fn parse_term(part: &str) -> (r: Result<Option<(String, String)>, String>)
    ensures
        match r {
            Ok(None) => label_term(part@) == Ok::<
                Option<(Seq<char>, Seq<char>)>,
                Seq<char>,
            >(None),
            Ok(Some((k, v))) => label_term(part@) == Ok::<
                Option<(Seq<char>, Seq<char>)>,
                Seq<char>,
            >(Some((k@, v@))),
            Err(e) => label_term(part@) == Err::<Option<(Seq<char>, Seq<char>)>, Seq<char>>(e@),
        },
{
    let pair: &str = trim(part);
    if pair.unicode_len() == 0 {
        return Ok(None);
    }
    match split_once(pair, '=') {
        None => Err(
            concat3(
                "malformed label term ",
                quoted(pair).as_str(),
                ", expected key=\"value\"",
            ),
        ),
        Some((key, rest)) => match strip_quotes(trim(rest)) {
            None => Err(concat("label value must be quoted: ", quoted(rest).as_str())),
            Some(value) => Ok(Some((trim(key).to_string(), value.to_string()))),
        },
    }
}

/// Parses a label set. Terms are separated by commas; blank terms are skipped. A quoted
/// value may hold commas and braces.
pub fn parse_label_set(s: &str) -> (r: Result<FieldMap, String>)
    ensures
        match r {
            Ok(labels) => label_set_of(s@) == Ok::<Map<Seq<char>, Seq<char>>, Seq<char>>(
                labels.texts(),
            ),
            Err(e) => label_set_of(s@) == Err::<Map<Seq<char>, Seq<char>>, Seq<char>>(e@),
        },
{
    let t: &str = trim(s);
    let chars: Vec<char> = to_chars(t);
    let open: usize = find_from(&chars, '{');
    if open == chars.len() {
        return Err("label set must start with '{', e.g. {level=\"error\"}".to_string());
    }
    let close: usize = find_closing(&chars);
    if close == chars.len() {
        return Err("unterminated label set — missing '}'".to_string());
    }
    if close < open {
        return Err("malformed label set".to_string());
    }
    let parts: Vec<&str> = split_terms(t.substring_char(open + 1, close));
    let ghost all = text::views(parts@);
    let mut labels: FieldMap = FieldMap::empty();
    let mut i: usize = 0;
    assert(all.take(0) =~= Seq::<Seq<char>>::empty());
    while i < parts.len()
        invariant
            i <= parts@.len(),
            all == text::views(parts@),
            all == terms(t@.subrange(open + 1, close as int)),
            labels_of(all.take(i as int)) == Ok::<Map<Seq<char>, Seq<char>>, Seq<char>>(
                labels.texts(),
            ),
            t@ == text::trimmed(s@),
            open == text::position(t@, '{'),
            close == closing(t@),
            open < close < t@.len(),
        decreases parts.len() - i,
    {
        assert(all.take(i + 1).drop_last() =~= all.take(i as int));
        assert(all[i as int] == parts@[i as int]@);
        match parse_term(parts[i]) {
            Ok(None) => {},
            Ok(Some((name, value))) => {
                labels.put(name.as_str(), value.as_str());
            },
            Err(e) => {
                proof {
                    lemma_error_stays(all, i + 1);
                }
                return Err(e);
            },
        }
        i = i + 1;
    }
    assert(all.take(i as int) =~= all);
    Ok(labels)
}

/// What a line filter asks for; `None` if there is none.
pub open spec fn line_filter_of(remainder: Seq<char>) -> Result<Option<Seq<char>>, Seq<char>> {
    if remainder.len() == 0 {
        Ok(None)
    } else {
        match text::after_prefix(remainder, "|="@) {
            None => Err(
                "unsupported line-filter operator (only `|=` is supported): "@ + text::debug_text(
                    remainder,
                ),
            ),
            Some(rest) => {
                let operand = text::trimmed(rest);
                match text::unquoted(operand) {
                    None => Err("line filter value must be quoted: "@ + text::debug_text(operand)),
                    Some(wanted) => Ok(Some(wanted)),
                }
            },
        }
    }
}

/// The selector and line filter that a query writes.
pub open spec fn query_of(query: Seq<char>) -> Result<
    (Map<Seq<char>, Seq<char>>, Option<Seq<char>>),
    Seq<char>,
> {
    let t = text::trimmed(query);
    let close = closing(t);
    if close >= t.len() {
        Err("unterminated label selector — missing `}`"@)
    } else {
        match label_set_of(t.take(close + 1)) {
            Err(e) => Err(e),
            Ok(selector) => match line_filter_of(text::trimmed(t.skip(close + 1))) {
                Err(e) => Err(e),
                Ok(filter) => Ok((selector, filter)),
            },
        }
    }
}

impl ParsedQuery {
    /// The selector and line filter.
    pub open spec fn parts(&self) -> (Map<Seq<char>, Seq<char>>, Option<Seq<char>>) {
        (
            self.selector.texts(),
            match self.line_filter {
                Some(f) => Some(f@),
                None => None,
            },
        )
    }
}

fn parse_line_filter(remainder: &str) -> (r: Result<Option<String>, String>)
    ensures
        match r {
            Ok(None) => line_filter_of(remainder@) == Ok::<Option<Seq<char>>, Seq<char>>(None),
            Ok(Some(f)) => line_filter_of(remainder@) == Ok::<Option<Seq<char>>, Seq<char>>(
                Some(f@),
            ),
            Err(e) => line_filter_of(remainder@) == Err::<Option<Seq<char>>, Seq<char>>(e@),
        },
{
    if remainder.unicode_len() == 0 {
        return Ok(None);
    }
    match strip_prefix(remainder, "|=") {
        None => Err(
            concat(
                "unsupported line-filter operator (only `|=` is supported): ",
                quoted(remainder).as_str(),
            ),
        ),
        Some(rest) => {
            let operand: &str = trim(rest);
            match strip_quotes(operand) {
                None => Err(
                    concat("line filter value must be quoted: ", quoted(operand).as_str()),
                ),
                Some(wanted) => Ok(Some(wanted.to_string())),
            }
        },
    }
}

/// Parses a query.
pub fn parse(query: &str) -> (r: Result<ParsedQuery, String>)
    ensures
        match r {
            Ok(p) => query_of(query@) == Ok::<
                (Map<Seq<char>, Seq<char>>, Option<Seq<char>>),
                Seq<char>,
            >(p.parts()),
            Err(e) => query_of(query@) == Err::<
                (Map<Seq<char>, Seq<char>>, Option<Seq<char>>),
                Seq<char>,
            >(e@),
        },
{
    let t: &str = trim(query);
    let chars: Vec<char> = to_chars(t);
    let close: usize = find_closing(&chars);
    if close == chars.len() {
        return Err("unterminated label selector — missing `}`".to_string());
    }
    let head: &str = t.substring_char(0, close + 1);
    assert(head@ =~= t@.take(close + 1));
    let rest: &str = t.substring_char(close + 1, chars.len());
    assert(rest@ =~= t@.skip(close + 1));
    match parse_label_set(head) {
        Err(e) => Err(e),
        Ok(selector) => match parse_line_filter(trim(rest)) {
            Err(e) => Err(e),
            Ok(line_filter) => Ok(ParsedQuery { selector, line_filter }),
        },
    }
}

/// `c` does not occur in `s`.
pub open spec fn lacks(s: Seq<char>, c: char) -> bool {
    forall|i: int| 0 <= i < s.len() ==> #[trigger] s[i] != c
}

/// How one label is written as a term.
pub open spec fn term(name: Seq<char>, value: Seq<char>) -> Seq<char> {
    name + seq!['=', '"'] + value + seq!['"']
}

/// Terms behind each other, as a label set has them.
pub open spec fn joined(labels: Seq<(Seq<char>, Seq<char>)>) -> Seq<char>
    decreases labels.len(),
{
    if labels.len() == 0 {
        seq![]
    } else {
        let last = term(labels.last().0, labels.last().1);
        if labels.len() == 1 {
            last
        } else {
            joined(labels.drop_last()) + seq![','] + (seq![' '] + last)
        }
    }
}

/// How labels are written as a label set.
pub open spec fn written(labels: Seq<(Seq<char>, Seq<char>)>) -> Seq<char> {
    seq!['{'] + joined(labels) + seq!['}']
}

/// How a line filter is written behind a label set.
pub open spec fn filter_text(wanted: Seq<char>) -> Seq<char> {
    seq![' ', '|', '=', ' ', '"'] + wanted + seq!['"']
}

/// The labels of a list, later ones winning.
pub open spec fn labels_map(labels: Seq<(Seq<char>, Seq<char>)>) -> Map<Seq<char>, Seq<char>>
    decreases labels.len(),
{
    if labels.len() == 0 {
        Map::empty()
    } else {
        labels_map(labels.drop_last()).insert(labels.last().0, labels.last().1)
    }
}

/// A label that can be written: its name has no white space at its ends and no equals
/// sign, its quotes are in place and close, and no comma and no closing brace is outside
/// them. So is every value without quotes and backslashes, also one with commas and braces.
pub open spec fn is_writable(label: (Seq<char>, Seq<char>)) -> bool {
    &&& text::trimmed(label.0) == label.0
    &&& lacks(label.0, '=')
    &&& is_closed(term(label.0, label.1), ',')
    &&& is_closed(term(label.0, label.1), '}')
}

/// The quotes of `s` are in place and close, and no `c` is outside them.
pub open spec fn is_closed(s: Seq<char>, c: char) -> bool {
    is_bare(place_after(Place::Outside, s)) && bare_position(s, c, Place::Outside) == s.len()
}

/// Labels that were written are read back as they were, as a label set and as a query, and
/// so is a line filter behind them, whatever its text.
pub proof fn law_written_query_reads_back(
    labels: Seq<(Seq<char>, Seq<char>)>,
    wanted: Seq<char>,
)
    requires
        forall|i: int| 0 <= i < labels.len() ==> is_writable(#[trigger] labels[i]),
    ensures
        label_set_of(written(labels)) == Ok::<Map<Seq<char>, Seq<char>>, Seq<char>>(
            labels_map(labels),
        ),
        query_of(written(labels)) == Ok::<
            (Map<Seq<char>, Seq<char>>, Option<Seq<char>>),
            Seq<char>,
        >((labels_map(labels), None)),
        query_of(written(labels) + filter_text(wanted)) == Ok::<
            (Map<Seq<char>, Seq<char>>, Option<Seq<char>>),
            Seq<char>,
        >((labels_map(labels), Some(wanted))),
{
    let s = written(labels);
    let n = s.len() as int;
    lemma_written_set(labels);
    assert(s.take(n) =~= s);
    assert(s.skip(n) =~= Seq::<char>::empty());
    text::lemma_trimmed_is(Seq::<char>::empty());
    let f = filter_text(wanted);
    let q = s + f;
    assert(q[0] == '{');
    assert(q.last() == '"');
    text::lemma_trimmed_is(q);
    lemma_written_closes(labels, f);
    assert(q.take(n) =~= s);
    assert(q.skip(n) =~= f);
    lemma_written_filter(wanted);
}

proof fn lemma_written_filter(wanted: Seq<char>)
    ensures
        line_filter_of(text::trimmed(filter_text(wanted))) == Ok::<Option<Seq<char>>, Seq<char>>(
            Some(wanted),
        ),
{
    let f = filter_text(wanted);
    let body = seq!['|', '=', ' ', '"'] + wanted + seq!['"'];
    assert(f =~= seq![' '] + body);
    assert(body[0] == '|' && body.last() == '"');
    lemma_space_trims(body);
    reveal_strlit("|=");
    assert("|="@ =~= seq!['|', '=']);
    assert(body.take(2) =~= "|="@);
    let operand = seq!['"'] + wanted + seq!['"'];
    assert(body.skip(2) =~= seq![' '] + operand);
    assert(operand[0] == '"' && operand.last() == '"');
    lemma_space_trims(operand);
    let inner = wanted + seq!['"'];
    assert(operand.skip(1) =~= inner);
    assert(inner.last() == '"');
    assert(inner.take(inner.len() - 1) =~= wanted);
}

/// A space in front of a text without white space at its ends is trimmed off.
proof fn lemma_space_trims(s: Seq<char>)
    requires
        s.len() > 0,
        !text::is_white(s[0]),
        !text::is_white(s.last()),
    ensures
        text::trimmed(seq![' '] + s) == s,
{
    let t = seq![' '] + s;
    assert(t[1] == s[0]);
    text::lemma_run_len_is(t, text::white(), 1);
    assert(t.skip(1) =~= s);
}

proof fn lemma_written_term(name: Seq<char>, value: Seq<char>)
    requires
        text::trimmed(name) == name,
        lacks(name, '='),
    ensures
        text::trimmed(term(name, value)) == term(name, value),
        text::trimmed(seq![' '] + term(name, value)) == term(name, value),
        label_term(term(name, value)) == Ok::<Option<(Seq<char>, Seq<char>)>, Seq<char>>(
            Some((name, value)),
        ),
        label_term(seq![' '] + term(name, value)) == Ok::<
            Option<(Seq<char>, Seq<char>)>,
            Seq<char>,
        >(Some((name, value))),
{
    let body = term(name, value);
    let n = name.len() as int;
    text::lemma_trimmed_ends(name);
    assert(body.last() == '"');
    assert(body[0] == if n > 0 {
        name[0]
    } else {
        '='
    });
    text::lemma_trimmed_is(body);
    lemma_space_trims(body);
    assert forall|i: int| 0 <= i < n implies #[trigger] body[i] != '=' by {
        assert(body[i] == name[i]);
    }
    assert(body[n] == '=');
    text::lemma_run_len_is(body, text::other_than('='), n);
    let rest = seq!['"'] + value + seq!['"'];
    assert(body.take(n) =~= name);
    assert(body.skip(n + 1) =~= rest);
    assert(rest[0] == '"' && rest.last() == '"');
    text::lemma_trimmed_is(rest);
    let inner = value + seq!['"'];
    assert(rest.skip(1) =~= inner);
    assert(inner.last() == '"');
    assert(inner.take(inner.len() - 1) =~= value);
}

/// The place behind two texts is that behind the second, started where the first ends.
proof fn lemma_place_after(place: Place, a: Seq<char>, b: Seq<char>)
    ensures
        place_after(place, a + b) == place_after(place_after(place, a), b),
    decreases a.len(),
{
    if a.len() == 0 {
        assert(a + b =~= b);
    } else {
        assert((a + b).skip(1) =~= a.skip(1) + b);
        assert((a + b)[0] == a[0]);
        lemma_place_after(place_behind(place, a[0]), a.skip(1), b);
    }
}

/// In two texts, where the first has no `c` outside quotes, the first one is that of the
/// second.
proof fn lemma_bare_position(a: Seq<char>, b: Seq<char>, c: char, place: Place)
    requires
        bare_position(a, c, place) == a.len(),
    ensures
        bare_position(a + b, c, place) == a.len() + bare_position(b, c, place_after(place, a)),
    decreases a.len(),
{
    if a.len() == 0 {
        assert(a + b =~= b);
    } else {
        assert((a + b).skip(1) =~= a.skip(1) + b);
        assert((a + b)[0] == a[0]);
        lemma_bare_position(a.skip(1), b, c, place_behind(place, a[0]));
    }
}

proof fn lemma_bare_bound(s: Seq<char>, c: char, place: Place)
    ensures
        bare_position(s, c, place) <= s.len(),
        bare_position(s, c, place) < s.len() ==> s[bare_position(s, c, place) as int] == c,
        bare_position(s, c, place) < s.len() ==> is_bare(
            place_after(place, s.take(bare_position(s, c, place) as int)),
        ),
        bare_position(s.take(bare_position(s, c, place) as int), c, place) == bare_position(
            s,
            c,
            place,
        ),
    decreases s.len(),
{
    let p = bare_position(s, c, place) as int;
    if s.len() == 0 || (is_bare(place) && s[0] == c) {
        assert(s.take(0) =~= Seq::<char>::empty());
    } else {
        lemma_bare_bound(s.skip(1), c, place_behind(place, s[0]));
        assert(s.take(p).skip(1) =~= s.skip(1).take(p - 1));
        assert(s.take(p)[0] == s[0]);
        if p < s.len() {
            assert(s.skip(1)[p - 1] == s[p]);
        }
    }
}

/// One more piece without a bare `c` comes last.
proof fn lemma_bare_pieces_push(a: Seq<char>, b: Seq<char>, c: char)
    requires
        c == ',',
        is_bare(place_after(Place::Outside, a)),
        bare_position(b, c, Place::Outside) == b.len(),
    ensures
        bare_pieces(a + seq![c] + b, c) == bare_pieces(a, c).push(b),
    decreases a.len(),
{
    let s = a + seq![c] + b;
    let p = bare_position(a, c, Place::Outside) as int;
    lemma_bare_bound(a, c, Place::Outside);
    if p < a.len() {
        let head = a.take(p);
        let tail = a.skip(p);
        let next = a.skip(p + 1);
        assert(a =~= head + tail);
        assert(s =~= head + (tail + seq![c] + b));
        lemma_bare_position(head, tail + seq![c] + b, c, Place::Outside);
        assert((tail + seq![c] + b)[0] == c);
        assert(bare_position(s, c, Place::Outside) == p);
        assert(s.take(p) =~= head);
        assert(s.skip(p + 1) =~= next + seq![c] + b);
        assert(tail =~= seq![c] + next);
        lemma_place_after(Place::Outside, head, tail);
        lemma_place_after(Place::Outside, seq![c], next);
        assert(seq![c].skip(1) =~= Seq::<char>::empty());
        reveal_with_fuel(place_after, 2);
        lemma_bare_pieces_push(next, b, c);
        assert(bare_pieces(s, c) =~= seq![head] + bare_pieces(next, c).push(b));
        assert(bare_pieces(s, c) =~= bare_pieces(a, c).push(b));
    } else {
        assert(s =~= a + (seq![c] + b));
        lemma_bare_position(a, seq![c] + b, c, Place::Outside);
        assert((seq![c] + b)[0] == c);
        assert(bare_position(s, c, Place::Outside) == p);
        assert(s.take(p) =~= a);
        assert(s.skip(p + 1) =~= b);
        assert(bare_pieces(b, c) =~= seq![b]);
        assert(bare_pieces(s, c) =~= seq![a, b]);
        assert(bare_pieces(a, c) =~= seq![a]);
        assert(seq![a].push(b) =~= seq![a, b]);
    }
}

proof fn lemma_joined(labels: Seq<(Seq<char>, Seq<char>)>)
    requires
        forall|i: int| 0 <= i < labels.len() ==> is_writable(#[trigger] labels[i]),
    ensures
        is_closed(joined(labels), '}'),
        labels_of(bare_pieces(joined(labels), ',')) == Ok::<
            Map<Seq<char>, Seq<char>>,
            Seq<char>,
        >(labels_map(labels)),
    decreases labels.len(),
{
    let whole = joined(labels);
    if labels.len() == 0 {
        let blank = Seq::<char>::empty();
        assert(whole =~= blank);
        assert(bare_pieces(whole, ',') =~= seq![blank]);
        text::lemma_trimmed_is(blank);
        assert(seq![blank].drop_last() =~= Seq::<Seq<char>>::empty());
        reveal_with_fuel(labels_of, 2);
    } else {
        let label = labels.last();
        assert(is_writable(labels[labels.len() - 1]));
        let last = term(label.0, label.1);
        lemma_written_term(label.0, label.1);
        if labels.len() == 1 {
            assert(bare_pieces(last, ',') =~= seq![last]);
            assert(seq![last].drop_last() =~= Seq::<Seq<char>>::empty());
            assert(labels.drop_last() =~= Seq::<(Seq<char>, Seq<char>)>::empty());
            reveal_with_fuel(labels_of, 2);
            reveal_with_fuel(labels_map, 2);
        } else {
            let head = labels.drop_last();
            assert forall|i: int| 0 <= i < head.len() implies is_writable(#[trigger] head[i]) by {
                assert(head[i] == labels[i]);
            }
            lemma_joined(head);
            let a = joined(head);
            let b = seq![' '] + last;
            assert(b.skip(1) =~= last);
            assert(is_closed(b, ',') && is_closed(b, '}'));
            lemma_bare_pieces_push(a, b, ',');
            let parts = bare_pieces(whole, ',');
            assert(parts == bare_pieces(a, ',').push(b));
            assert(parts.drop_last() =~= bare_pieces(a, ','));
            let tail = seq![','] + b;
            assert(tail.skip(1) =~= b);
            assert(is_closed(tail, '}'));
            assert(whole =~= a + tail);
            lemma_place_after(Place::Outside, a, tail);
            lemma_bare_position(a, tail, '}', Place::Outside);
        }
    }
}

/// A written label set ends where it was written to end, whatever follows it.
proof fn lemma_written_closes(labels: Seq<(Seq<char>, Seq<char>)>, rest: Seq<char>)
    requires
        forall|i: int| 0 <= i < labels.len() ==> is_writable(#[trigger] labels[i]),
    ensures
        text::position(written(labels) + rest, '{') == 0,
        closing(written(labels) + rest) == written(labels).len() - 1,
{
    let body = joined(labels);
    let q = written(labels) + rest;
    lemma_joined(labels);
    assert(q[0] == '{');
    text::lemma_run_len_is(q, text::other_than('{'), 0);
    text::lemma_run_len(q, text::other_than('}'));
    let tail = seq!['}'] + rest;
    assert(q.skip(1) =~= body + tail);
    lemma_bare_position(body, tail, '}', Place::Outside);
    assert(tail[0] == '}');
}

proof fn lemma_written_set(labels: Seq<(Seq<char>, Seq<char>)>)
    requires
        forall|i: int| 0 <= i < labels.len() ==> is_writable(#[trigger] labels[i]),
    ensures
        text::trimmed(written(labels)) == written(labels),
        closing(written(labels)) == written(labels).len() - 1,
        label_set_of(written(labels)) == Ok::<Map<Seq<char>, Seq<char>>, Seq<char>>(
            labels_map(labels),
        ),
{
    let s = written(labels);
    lemma_joined(labels);
    lemma_written_closes(labels, Seq::<char>::empty());
    assert(s + Seq::<char>::empty() =~= s);
    assert(s[0] == '{' && s.last() == '}');
    text::lemma_trimmed_is(s);
    assert(s.subrange(1, s.len() - 1) =~= joined(labels));
}

/// A query and its selector alone agree: where a query is read, its label set is read as
/// its selector, and it has no line filter exactly where only white space follows the label
/// set. A text whose label set is refused is refused as a query.
pub proof fn law_query_and_label_set_agree(q: Seq<char>)
    ensures
        query_of(q) matches Ok((selector, filter)) ==> {
            &&& label_set_of(q) == Ok::<Map<Seq<char>, Seq<char>>, Seq<char>>(selector)
            &&& filter is None <==> text::trimmed(
                text::trimmed(q).skip(closing(text::trimmed(q)) + 1),
            ).len() == 0
        },
        label_set_of(q) is Err ==> query_of(q) is Err,
{
    let t = text::trimmed(q);
    let open = text::position(t, '{') as int;
    let first = text::position(t, '}') as int;
    let close = closing(t);
    text::lemma_run_len(t, text::other_than('{'));
    text::lemma_run_len(t, text::other_than('}'));
    if open + 1 <= t.len() {
        lemma_bare_bound(t.skip(open + 1), '}', Place::Outside);
    }
    if open < t.len() && close < t.len() {
        let head = t.take(close + 1);
        assert(t[close] == '}') by {
            if close != first {
                assert(t.skip(open + 1)[close - open - 1] == t[close]);
            }
        }
        lemma_trimmed_head(q, close);
        if open < close {
            assert forall|i: int| 0 <= i < open implies text::other_than('{')(
                #[trigger] head[i],
            ) by {
                assert(text::other_than('{')(t[i]));
            }
            text::lemma_run_len_is(head, text::other_than('{'), open);
            assert forall|i: int| 0 <= i < first implies text::other_than('}')(
                #[trigger] head[i],
            ) by {
                assert(text::other_than('}')(t[i]));
            }
            assert(first <= close);
            text::lemma_run_len_is(head, text::other_than('}'), first);
            let rest = t.skip(open + 1);
            let head_rest = head.skip(open + 1);
            let bare = bare_position(rest, '}', Place::Outside) as int;
            assert(open < first);
            assert(head_rest =~= rest.take(close - open));
            if open + 1 + bare < t.len() {
                assert(rest.take(bare) + seq!['}'] =~= head_rest);
                lemma_bare_position(rest.take(bare), seq!['}'], '}', Place::Outside);
                assert(bare_position(head_rest, '}', Place::Outside) == bare);
            } else {
                lemma_bare_prefix(rest, '}', Place::Outside, close - open);
            }
            assert(closing(head) == close);
            assert(head.subrange(open + 1, close) =~= t.subrange(open + 1, close));
        } else {
            assert(close == first && close < open);
            assert forall|i: int| 0 <= i < close + 1 implies text::other_than('{')(
                #[trigger] head[i],
            ) by {
                assert(text::other_than('{')(t[i]));
            }
            text::lemma_run_len_is(head, text::other_than('{'), close + 1);
        }
    } else if close < t.len() {
        let head = t.take(close + 1);
        lemma_trimmed_head(q, close);
        assert forall|i: int| 0 <= i < close + 1 implies text::other_than('{')(
            #[trigger] head[i],
        ) by {
            assert(text::other_than('{')(t[i]));
        }
        text::lemma_run_len_is(head, text::other_than('{'), close + 1);
    }
}

/// A text that is trimmed up to a closing brace has no white space at its ends.
proof fn lemma_trimmed_head(q: Seq<char>, close: int)
    requires
        0 <= close < text::trimmed(q).len(),
        text::trimmed(q)[close] == '}',
    ensures
        text::trimmed(text::trimmed(q).take(close + 1)) == text::trimmed(q).take(close + 1),
{
    let t = text::trimmed(q);
    let head = t.take(close + 1);
    text::lemma_trimmed_starts(q);
    assert(head[0] == t[0]);
    assert(head.last() == '}');
    text::lemma_trimmed_is(head);
}

/// Where a text has no `c` outside quotes, no beginning of it has one.
proof fn lemma_bare_prefix(s: Seq<char>, c: char, place: Place, n: int)
    requires
        0 <= n <= s.len(),
        bare_position(s, c, place) == s.len(),
    ensures
        bare_position(s.take(n), c, place) == n,
    decreases s.len(),
{
    if n > 0 {
        assert(s.take(n).skip(1) =~= s.skip(1).take(n - 1));
        assert(s.take(n)[0] == s[0]);
        lemma_bare_prefix(s.skip(1), c, place_behind(place, s[0]), n - 1);
    }
}

/// A value without quotes and backslashes can be written under every plain name, whatever
/// commas and braces it holds.
pub proof fn law_plain_values_are_writable(name: Seq<char>, value: Seq<char>)
    requires
        text::trimmed(name) == name,
        lacks(name, '='),
        lacks(name, '"'),
        lacks(name, ','),
        lacks(name, '}'),
        lacks(value, '"'),
        lacks(value, '\\'),
    ensures
        is_writable((name, value)),
{
    let quoted_value = seq!['"'] + value + seq!['"'];
    let rest = seq!['='] + quoted_value;
    assert(term(name, value) =~= name + rest);
    lemma_outside(name, ',');
    lemma_outside(name, '}');
    lemma_inside(value, ',');
    lemma_inside(value, '}');
    assert(rest.skip(1) =~= quoted_value);
    assert(quoted_value.skip(1) =~= value + seq!['"']);
    assert(seq!['"'].skip(1) =~= Seq::<char>::empty());
    lemma_place_after(Place::Outside, name, rest);
    lemma_place_after(Place::Inside, value, seq!['"']);
    lemma_bare_position(name, rest, ',', Place::Outside);
    lemma_bare_position(name, rest, '}', Place::Outside);
    lemma_bare_position(value, seq!['"'], ',', Place::Inside);
    lemma_bare_position(value, seq!['"'], '}', Place::Inside);
    reveal_with_fuel(place_after, 3);
    reveal_with_fuel(bare_position, 3);
}

proof fn lemma_outside(s: Seq<char>, c: char)
    requires
        lacks(s, '"'),
        lacks(s, '='),
        lacks(s, c),
    ensures
        place_after(Place::Outside, s) is Outside,
        bare_position(s, c, Place::Outside) == s.len(),
    decreases s.len(),
{
    if s.len() > 0 {
        assert forall|i: int| 0 <= i < s.len() - 1 implies #[trigger] s.skip(1)[i] != '"'
            && s.skip(1)[i] != '=' && s.skip(1)[i] != c by {
            assert(s.skip(1)[i] == s[i + 1]);
        }
        assert(s[0] != '"' && s[0] != '=' && s[0] != c);
        lemma_outside(s.skip(1), c);
    }
}

proof fn lemma_inside(s: Seq<char>, c: char)
    requires
        lacks(s, '"'),
        lacks(s, '\\'),
    ensures
        place_after(Place::Inside, s) is Inside,
        bare_position(s, c, Place::Inside) == s.len(),
    decreases s.len(),
{
    if s.len() > 0 {
        assert forall|i: int| 0 <= i < s.len() - 1 implies #[trigger] s.skip(1)[i] != '"'
            && s.skip(1)[i] != '\\' by {
            assert(s.skip(1)[i] == s[i + 1]);
        }
        assert(s[0] != '"' && s[0] != '\\');
        lemma_inside(s.skip(1), c);
    }
}

/// A value in which every quote and every backslash stands behind a backslash of its own.
pub open spec fn is_escaped(s: Seq<char>) -> bool
    decreases s.len(),
{
    if s.len() == 0 {
        true
    } else if s[0] == '\\' {
        s.len() >= 2 && is_escaped(s.skip(2))
    } else {
        s[0] != '"' && is_escaped(s.skip(1))
    }
}

proof fn lemma_escaped_inside(s: Seq<char>, c: char)
    requires
        is_escaped(s),
    ensures
        place_after(Place::Inside, s) is Inside,
        bare_position(s, c, Place::Inside) == s.len(),
    decreases s.len(),
{
    reveal_with_fuel(place_after, 3);
    reveal_with_fuel(bare_position, 3);
    if s.len() > 0 {
        if s[0] == '\\' {
            assert(s.skip(1).skip(1) =~= s.skip(2));
            lemma_escaped_inside(s.skip(2), c);
        } else {
            lemma_escaped_inside(s.skip(1), c);
        }
    }
}

/// A query reads as the labels that it writes: for any names without white space around
/// them and without quotes, equals signs, commas and closing braces, and any values whose
/// quotes are escaped, whatever commas and braces they hold. Of two labels of one name the
/// later counts, and the line filter behind them is the text between its quotes.
pub proof fn law_labels_and_filter_are_read(
    labels: Seq<(Seq<char>, Seq<char>)>,
    wanted: Seq<char>,
    i: int,
    name: Seq<char>,
)
    requires
        forall|j: int|
            0 <= j < labels.len() ==> is_escaped((#[trigger] labels[j]).1) && text::trimmed(
                labels[j].0,
            ) == labels[j].0 && !labels[j].0.contains('"') && !labels[j].0.contains('=')
                && !labels[j].0.contains(',') && !labels[j].0.contains('}'),
    ensures
        query_of(written(labels) + seq![' ', '|', '=', ' ', '"'] + wanted + seq!['"']) is Ok,
        (query_of(written(labels) + seq![' ', '|', '=', ' ', '"'] + wanted + seq!['"'])->Ok_0).1
            == Some(wanted),
        query_of(written(labels)) is Ok,
        (query_of(written(labels))->Ok_0).1 is None,
        (query_of(written(labels))->Ok_0).0 == (query_of(
            written(labels) + seq![' ', '|', '=', ' ', '"'] + wanted + seq!['"'],
        )->Ok_0).0,
        label_set_of(written(labels)) is Ok,
        label_set_of(written(labels))->Ok_0 == (query_of(written(labels))->Ok_0).0,
        0 <= i < labels.len() && labels[i].0 == name && (forall|j: int|
            i < j < labels.len() ==> (#[trigger] labels[j]).0 != name) ==> (query_of(
            written(labels),
        )->Ok_0).0.dom().contains(name) && (query_of(written(labels))->Ok_0).0[name]
            == labels[i].1,
        (forall|j: int| 0 <= j < labels.len() ==> (#[trigger] labels[j]).0 != name) ==> !(query_of(
            written(labels),
        )->Ok_0).0.dom().contains(name),
{
    assert forall|j: int| 0 <= j < labels.len() implies is_writable(#[trigger] labels[j]) by {
        lemma_escaped_is_writable(labels[j].0, labels[j].1);
    }
    law_written_query_reads_back(labels, wanted);
    assert(written(labels) + seq![' ', '|', '=', ' ', '"'] + wanted + seq!['"'] =~= written(labels)
        + filter_text(wanted));
    lemma_later_label_counts(labels, i, name);
}

proof fn lemma_escaped_is_writable(name: Seq<char>, value: Seq<char>)
    requires
        text::trimmed(name) == name,
        !name.contains('='),
        !name.contains('"'),
        !name.contains(','),
        !name.contains('}'),
        is_escaped(value),
    ensures
        is_writable((name, value)),
{
    assert forall|i: int| 0 <= i < name.len() implies #[trigger] name[i] != '=' && name[i] != '"'
        && name[i] != ',' && name[i] != '}' by {
        assert(name.contains(name[i]));
    }
    let quoted_value = seq!['"'] + value + seq!['"'];
    let rest = seq!['='] + quoted_value;
    assert(term(name, value) =~= name + rest);
    lemma_outside(name, ',');
    lemma_outside(name, '}');
    lemma_escaped_inside(value, ',');
    lemma_escaped_inside(value, '}');
    assert(rest.skip(1) =~= quoted_value);
    assert(quoted_value.skip(1) =~= value + seq!['"']);
    assert(seq!['"'].skip(1) =~= Seq::<char>::empty());
    lemma_place_after(Place::Outside, name, rest);
    lemma_place_after(Place::Inside, value, seq!['"']);
    lemma_bare_position(name, rest, ',', Place::Outside);
    lemma_bare_position(name, rest, '}', Place::Outside);
    lemma_bare_position(value, seq!['"'], ',', Place::Inside);
    lemma_bare_position(value, seq!['"'], '}', Place::Inside);
    reveal_with_fuel(place_after, 3);
    reveal_with_fuel(bare_position, 3);
}

proof fn lemma_later_label_counts(labels: Seq<(Seq<char>, Seq<char>)>, i: int, name: Seq<char>)
    ensures
        0 <= i < labels.len() && labels[i].0 == name && (forall|j: int|
            i < j < labels.len() ==> (#[trigger] labels[j]).0 != name) ==> labels_map(
            labels,
        ).dom().contains(name) && labels_map(labels)[name] == labels[i].1,
        (forall|j: int| 0 <= j < labels.len() ==> (#[trigger] labels[j]).0 != name) ==> !labels_map(
            labels,
        ).dom().contains(name),
    decreases labels.len(),
{
    if labels.len() > 0 {
        let rest = labels.drop_last();
        assert(forall|j: int| 0 <= j < rest.len() ==> rest[j] == labels[j]);
        assert(labels.last() == labels[labels.len() - 1]);
        lemma_later_label_counts(rest, i, name);
    }
}

/// A term is a name, an equals sign, and a value in quotes, with any white space around
/// each. A blank term counts for nothing; one without an equals sign, or whose value is not
/// in quotes, is refused.
pub proof fn law_terms(part: Seq<char>, name: Seq<char>, rest: Seq<char>, value: Seq<char>)
    ensures
        text::trimmed(part).len() == 0 ==> label_term(part) == Ok::<
            Option<(Seq<char>, Seq<char>)>,
            Seq<char>,
        >(None),
        text::trimmed(part).len() > 0 && !text::trimmed(part).contains('=') ==> label_term(part)
            == Err::<Option<(Seq<char>, Seq<char>)>, Seq<char>>(
            "malformed label term "@ + text::debug_text(text::trimmed(part))
                + ", expected key=\"value\""@,
        ),
        text::trimmed(part) == name + seq!['='] + rest && !name.contains('=') && text::trimmed(rest)
            == seq!['"'] + value + seq!['"'] ==> label_term(part) == Ok::<
            Option<(Seq<char>, Seq<char>)>,
            Seq<char>,
        >(Some((text::trimmed(name), value))),
        text::trimmed(part) == name + seq!['='] + rest && !name.contains('=') && (text::trimmed(
            rest,
        ).len() < 2 || text::trimmed(rest)[0] != '"' || text::trimmed(rest).last() != '"')
            ==> label_term(part) == Err::<Option<(Seq<char>, Seq<char>)>, Seq<char>>(
            "label value must be quoted: "@ + text::debug_text(rest),
        ),
{
    let t = text::trimmed(part);
    text::law_cut_at_the_first(Seq::empty(), '=', Seq::empty(), t);
    if t == name + seq!['='] + rest && !name.contains('=') {
        text::law_cut_at_the_first(name, '=', rest, t);
        text::law_prefixes_are_taken_off(text::trimmed(rest), Seq::empty(), value, '"');
    }
}

/// The first bad term refuses a label set; without one, each term adds its label, and a
/// later one of the same name wins.
pub proof fn law_terms_add_up(parts: Seq<Seq<char>>, part: Seq<char>)
    ensures
        labels_of(Seq::<Seq<char>>::empty()) == Ok::<Map<Seq<char>, Seq<char>>, Seq<char>>(
            Map::empty(),
        ),
        labels_of(parts) is Err ==> labels_of(parts.push(part)) == labels_of(parts),
        labels_of(parts) is Ok && label_term(part) is Err ==> labels_of(parts.push(part)) is Err
            && labels_of(parts.push(part))->Err_0 == label_term(part)->Err_0,
        labels_of(parts) is Ok && label_term(part) is Ok && label_term(part)->Ok_0 is None
            ==> labels_of(parts.push(part)) == labels_of(parts),
        labels_of(parts) is Ok && label_term(part) is Ok && label_term(part)->Ok_0 is Some
            ==> labels_of(parts.push(part)) is Ok && labels_of(parts.push(part))->Ok_0 == labels_of(
            parts,
        )->Ok_0.insert((label_term(part)->Ok_0->0).0, (label_term(part)->Ok_0->0).1),
{
    assert(parts.push(part).drop_last() =~= parts);
}

/// The only filter is `|=` and a text in quotes; nothing is no filter, and anything else is
/// refused.
pub proof fn law_line_filter(remainder: Seq<char>, rest: Seq<char>, wanted: Seq<char>)
    ensures
        remainder.len() == 0 ==> line_filter_of(remainder) == Ok::<Option<Seq<char>>, Seq<char>>(
            None,
        ),
        remainder.len() > 0 && !(remainder.len() >= 2 && remainder[0] == '|' && remainder[1] == '=')
            ==> line_filter_of(remainder) == Err::<Option<Seq<char>>, Seq<char>>(
            "unsupported line-filter operator (only `|=` is supported): "@ + text::debug_text(
                remainder,
            ),
        ),
        remainder == seq!['|', '='] + rest && text::trimmed(rest) == seq!['"'] + wanted + seq!['"']
            ==> line_filter_of(remainder) == Ok::<Option<Seq<char>>, Seq<char>>(Some(wanted)),
        remainder == seq!['|', '='] + rest && (text::trimmed(rest).len() < 2 || text::trimmed(
            rest,
        )[0] != '"' || text::trimmed(rest).last() != '"') ==> line_filter_of(remainder) == Err::<
            Option<Seq<char>>,
            Seq<char>,
        >("line filter value must be quoted: "@ + text::debug_text(text::trimmed(rest))),
{
    reveal_strlit("|=");
    assert("|="@ =~= seq!['|', '=']);
    text::law_prefixes_are_taken_off(remainder, seq!['|', '='], rest, '"');
    text::law_prefixes_are_taken_off(text::trimmed(rest), Seq::empty(), wanted, '"');
}

/// A text without an opening brace, without a closing one, or whose closing one comes first
/// is no label set, and a query without a closing brace is none.
pub proof fn law_label_sets_need_their_braces(s: Seq<char>)
    ensures
        !text::trimmed(s).contains('{') ==> label_set_of(s) == Err::<
            Map<Seq<char>, Seq<char>>,
            Seq<char>,
        >("label set must start with '{', e.g. {level=\"error\"}"@),
        text::trimmed(s).contains('{') && !text::trimmed(s).contains('}') ==> label_set_of(s)
            == Err::<Map<Seq<char>, Seq<char>>, Seq<char>>(
            "unterminated label set — missing '}'"@,
        ),
        !text::trimmed(s).contains('}') ==> query_of(s) == Err::<
            (Map<Seq<char>, Seq<char>>, Option<Seq<char>>),
            Seq<char>,
        >("unterminated label selector — missing `}`"@),
{
    let t = text::trimmed(s);
    text::law_cut_at_the_first(Seq::empty(), '{', Seq::empty(), t);
    text::law_cut_at_the_first(Seq::empty(), '}', Seq::empty(), t);
    let open = text::position(t, '{') as int;
    text::lemma_run_len(t, text::other_than('{'));
    text::lemma_run_len(t, text::other_than('}'));
    if !t.contains('}') && open < t.len() {
        lemma_bare_bound(t.skip(open + 1), '}', Place::Outside);
        let p = bare_position(t.skip(open + 1), '}', Place::Outside) as int;
        lemma_bare_stops(t.skip(open + 1), '}', Place::Outside);
        if p < t.skip(open + 1).len() {
            assert(t[open + 1 + p] == '}');
        }
    }
}

proof fn lemma_bare_stops(s: Seq<char>, c: char, place: Place)
    ensures
        bare_position(s, c, place) < s.len() ==> s[bare_position(s, c, place) as int] == c,
    decreases s.len(),
{
    if s.len() > 0 && !(is_bare(place) && s[0] == c) {
        lemma_bare_stops(s.skip(1), c, place_behind(place, s[0]));
    }
}

proof fn lemma_broken_stays(s: Seq<char>, c: char)
    ensures
        place_after(Place::Broken, s) is Broken,
        bare_position(s, c, Place::Broken) == s.len(),
    decreases s.len(),
{
    if s.len() > 0 {
        lemma_broken_stays(s.skip(1), c);
    }
}

/// A quote that opens behind no equals sign is out of place: from there on quotes count as
/// any character, so the terms end at every comma and the label set at its first brace.
pub proof fn law_misplaced_quotes_count_as_characters(a: Seq<char>, b: Seq<char>)
    requires
        !a.contains('"'),
        !a.contains('='),
        !a.contains('}'),
    ensures
        terms(a + seq!['"'] + b) == text::pieces(a + seq!['"'] + b, ','),
        closing(seq!['{'] + a + seq!['"'] + b) == text::position(
            seq!['{'] + a + seq!['"'] + b,
            '}',
        ),
{
    assert forall|i: int| 0 <= i < a.len() implies #[trigger] a[i] != '"' && a[i] != '=' && a[i]
        != '}' by {
        assert(a.contains(a[i]));
    }
    let rest = seq!['"'] + b;
    let body = a + rest;
    assert(a + seq!['"'] + b =~= body);
    lemma_outside(a, '}');
    lemma_place_after(Place::Outside, a, rest);
    assert(rest.skip(1) =~= b);
    lemma_broken_stays(b, '}');
    assert(place_after(Place::Outside, body) is Broken);
    let t = seq!['{'] + a + seq!['"'] + b;
    lemma_bare_position(a, rest, '}', Place::Outside);
    assert(t.skip(1) =~= body);
    text::lemma_run_len_is(t, text::other_than('{'), 0);
    assert(bare_position(rest, '}', Place::Outside) == rest.len());
}

} // verus!
