//! RFC 5424 syslog messages.
//!
//! `<PRI>VERSION TIMESTAMP HOSTNAME APP-NAME PROCID MSGID STRUCTURED-DATA MSG`. Senders are
//! famously loose about the format, so a line that does not parse still lands, as its raw
//! text.

use vstd::prelude::*;

use crate::clock;
use crate::clock::{now_ns, parse_instant};
use crate::decimal;
use crate::decimal::{decimal_text, parse_natural};
use crate::record;
use crate::record::{PendingRecord, WireRecord};
use crate::strmap::FieldMap;
use crate::text;
use crate::text::{
    same_text, split_once, split_up_to, strip_first, to_chars, trim, trim_start,
};

verus! {

/// The most bytes of one datagram or line that are read.
pub const MAX_MESSAGE_BYTES: usize = 64 * 1024;

/// The most connections that are served at a time.
pub const MAX_CONCURRENT_CONNECTIONS: usize = 1024;

/// The highest priority: facility 23, severity 7.
pub const MAX_PRI: u64 = 191;

/// The parts of a well-formed message.
pub struct Header<'a> {
    pub facility: u64,
    pub severity: u64,
    pub timestamp: &'a str,
    pub hostname: &'a str,
    pub app_name: &'a str,
    pub procid: &'a str,
    pub msgid: &'a str,
    pub msg: &'a str,
}

/// The contents of a `Header`.
#[verifier::ext_equal]
pub struct HeaderParts {
    pub facility: nat,
    pub severity: nat,
    pub timestamp: Seq<char>,
    pub hostname: Seq<char>,
    pub app_name: Seq<char>,
    pub procid: Seq<char>,
    pub msgid: Seq<char>,
    pub msg: Seq<char>,
}

/// `s` without one leading space.
pub open spec fn after_space(s: Seq<char>) -> Seq<char> {
    match text::without_first(s, ' ') {
        Some(t) => t,
        None => s,
    }
}

/// Where bracketed structured data ends: the place of the bracket that closes the last of
/// the elements that follow each other without a gap, read from `i` on inside `depth`
/// brackets. Inside quotes brackets do not count, and a backslash takes the next character
/// with it.
pub open spec fn data_end(s: Seq<char>, i: int, depth: int, in_quotes: bool) -> Option<int>
    decreases
            (if i < s.len() {
                s.len() - i
            } else {
                0
            }),
{
    if i < 0 || i >= s.len() {
        None
    } else if s[i] == '\\' && in_quotes {
        data_end(s, i + 2, depth, in_quotes)
    } else if s[i] == '"' {
        data_end(s, i + 1, depth, !in_quotes)
    } else if s[i] == '[' && !in_quotes {
        data_end(s, i + 1, depth + 1, in_quotes)
    } else if s[i] == ']' && !in_quotes {
        if depth == 1 && !(i + 1 < s.len() && s[i + 1] == '[') {
            Some(i)
        } else {
            data_end(s, i + 1, depth - 1, in_quotes)
        }
    } else {
        data_end(s, i + 1, depth, in_quotes)
    }
}

/// The message behind structured data: `-`, or bracketed elements; all of it where there
/// is neither, or the brackets do not close.
pub open spec fn message_after_data(s: Seq<char>) -> Seq<char> {
    let t = text::trimmed_start(s);
    match text::without_first(t, '-') {
        Some(after_nil) => after_space(after_nil),
        None => if t.len() == 0 || t[0] != '[' {
            t
        } else {
            match data_end(t, 0, 0, false) {
                Some(end) => after_space(t.skip(end + 1)),
                None => t,
            }
        },
    }
}

/// The header of a well-formed line.
pub open spec fn header_of(line: Seq<char>) -> Option<HeaderParts> {
    match text::without_first(line, '<') {
        None => None,
        Some(rest) => match text::cut_at(rest, '>') {
            None => None,
            Some((pri, tail)) => match decimal::natural_within(pri, MAX_PRI as int) {
                None => None,
                Some(n) => {
                    let parts = text::pieces_up_to(tail, ' ', 7);
                    if parts.len() < 6 {
                        None
                    } else {
                        Some(
                            HeaderParts {
                                facility: n / 8,
                                severity: n % 8,
                                timestamp: parts[1],
                                hostname: parts[2],
                                app_name: parts[3],
                                procid: parts[4],
                                msgid: parts[5],
                                msg: message_after_data(
                                    if parts.len() > 6 {
                                        parts[6]
                                    } else {
                                        seq![]
                                    },
                                ),
                            },
                        )
                    }
                },
            },
        },
    }
}

/// The name of a severity.
pub open spec fn severity_text(severity: nat) -> Seq<char> {
    if severity == 0 {
        "emergency"@
    } else if severity == 1 {
        "alert"@
    } else if severity == 2 {
        "critical"@
    } else if severity == 3 {
        "error"@
    } else if severity == 4 {
        "warning"@
    } else if severity == 5 {
        "notice"@
    } else if severity == 6 {
        "info"@
    } else if severity == 7 {
        "debug"@
    } else {
        "unknown"@
    }
}

/// `fields` with a header part, unless that part is nil.
pub open spec fn with_part(
    fields: Map<Seq<char>, Seq<char>>,
    name: Seq<char>,
    value: Seq<char>,
) -> Map<Seq<char>, Seq<char>> {
    if value == "-"@ {
        fields
    } else {
        fields.insert(name, value)
    }
}

/// The fields that a header gives.
pub open spec fn header_fields(h: HeaderParts) -> Map<Seq<char>, Seq<char>> {
    let m = Map::<Seq<char>, Seq<char>>::empty().insert(
        "facility"@,
        decimal::decimal(h.facility),
    ).insert("severity"@, decimal::decimal(h.severity)).insert(
        "level"@,
        severity_text(h.severity),
    );
    with_part(
        with_part(
            with_part(with_part(m, "hostname"@, h.hostname), "app_name"@, h.app_name),
            "procid"@,
            h.procid,
        ),
        "msgid"@,
        h.msgid,
    )
}

/// `s` without a leading byte order mark.
pub open spec fn without_mark(s: Seq<char>) -> Seq<char> {
    match text::without_first(s, '\u{feff}') {
        Some(t) => t,
        None => s,
    }
}

/// The record of a line with that header, where `instant` is what its timestamp stands
/// for. A nil timestamp stands for nothing.
pub open spec fn record_with(h: HeaderParts, instant: Option<i64>) -> record::Pending {
    record::Pending {
        timestamp_ns: if h.timestamp == "-"@ {
            None
        } else {
            instant
        },
        message: without_mark(h.msg),
        fields: header_fields(h),
    }
}

/// The record that a line gives. It has no time of its own where the line does not parse,
/// or its timestamp is nil or unreadable.
pub open spec fn message_of(line: Seq<char>) -> record::Pending {
    match header_of(line) {
        None => record::Pending { timestamp_ns: None, message: line, fields: Map::empty() },
        Some(h) => record_with(h, clock::instant_of(h.timestamp)),
    }
}

impl<'a> View for Header<'a> {
    type V = HeaderParts;

    open spec fn view(&self) -> HeaderParts {
        HeaderParts {
            facility: self.facility as nat,
            severity: self.severity as nat,
            timestamp: self.timestamp@,
            hostname: self.hostname@,
            app_name: self.app_name@,
            procid: self.procid@,
            msgid: self.msgid@,
            msg: self.msg@,
        }
    }
}

fn drop_space<'a>(s: &'a str) -> (r: &'a str)
    ensures
        r@ == after_space(s@),
{
    match strip_first(s, ' ') {
        Some(t) => t,
        None => s,
    }
}

/// Finds where structured data ends, and with it the message.
pub fn skip_structured_data<'a>(sd_and_msg: &'a str) -> (r: &'a str)
    ensures
        r@ == message_after_data(sd_and_msg@),
{
    let trimmed: &'a str = trim_start(sd_and_msg);
    match strip_first(trimmed, '-') {
        Some(after_nil) => {
            return drop_space(after_nil);
        },
        None => {},
    }
    let chars: Vec<char> = to_chars(trimmed);
    let n: usize = chars.len();
    if n == 0 || chars[0] != '[' {
        return trimmed;
    }
    let ghost s = trimmed@;
    let mut depth: usize = 0;
    let mut in_quotes: bool = false;
    let mut i: usize = 0;
    while i < n
        invariant
            n == s.len(),
            chars@ == s,
            s == trimmed@,
            s == text::trimmed_start(sd_and_msg@),
            text::without_first(s, '-') is None,
            s[0] == '[',
            depth == 0 ==> s[i as int] == '[' && !in_quotes,
            depth <= i,
            data_end(s, i as int, depth as int, in_quotes) == data_end(s, 0, 0, false),
        decreases n - i,
    {
        let c: char = chars[i];
        if c == '\\' && in_quotes {
            if i + 1 >= n {
                assert(data_end(s, i + 2, depth as int, in_quotes) is None);
                return trimmed;
            }
            i = i + 2;
        } else if c == '"' {
            in_quotes = !in_quotes;
            i = i + 1;
        } else if c == '[' && !in_quotes {
            depth = depth + 1;
            i = i + 1;
        } else if c == ']' && !in_quotes {
            if depth == 1 && !(i + 1 < n && chars[i + 1] == '[') {
                let after: &'a str = trimmed.substring_char(i + 1, n);
                assert(after@ =~= s.skip(i + 1));
                return drop_space(after);
            }
            depth = depth - 1;
            i = i + 1;
        } else {
            i = i + 1;
        }
    }
    trimmed
}

/// Parses the header of a line.
pub fn try_parse_header<'a>(line: &'a str) -> (r: Option<Header<'a>>)
    ensures
        match r {
            Some(h) => header_of(line@) == Some(h@),
            None => header_of(line@) is None,
        },
{
    let rest: &'a str = match strip_first(line, '<') {
        Some(t) => t,
        None => {
            return None;
        },
    };
    let (pri_text, tail): (&'a str, &'a str) = match split_once(rest, '>') {
        Some(p) => p,
        None => {
            return None;
        },
    };
    let pri: u64 = match parse_natural(pri_text, MAX_PRI) {
        Some(n) => n,
        None => {
            return None;
        },
    };
    let parts: Vec<&'a str> = split_up_to(tail, ' ', 7);
    let ghost pieces = text::pieces_up_to(tail@, ' ', 7);
    assert(pieces.len() == parts@.len());
    if parts.len() < 6 {
        return None;
    }
    assert(forall|i: int| 0 <= i < parts@.len() ==> pieces[i] == (#[trigger] parts@[i])@);
    let msg: &'a str = if parts.len() > 6 {
        skip_structured_data(parts[6])
    } else {
        proof {
            reveal_strlit("");
            assert(""@ =~= Seq::<char>::empty());
        }
        skip_structured_data("")
    };
    Some(
        Header {
            facility: pri / 8,
            severity: pri % 8,
            timestamp: parts[1],
            hostname: parts[2],
            app_name: parts[3],
            procid: parts[4],
            msgid: parts[5],
            msg: msg,
        },
    )
}

/// The name of a severity.
pub fn severity_name(severity: u64) -> (r: &'static str)
    ensures
        r@ == severity_text(severity as nat),
{
    if severity == 0 {
        "emergency"
    } else if severity == 1 {
        "alert"
    } else if severity == 2 {
        "critical"
    } else if severity == 3 {
        "error"
    } else if severity == 4 {
        "warning"
    } else if severity == 5 {
        "notice"
    } else if severity == 6 {
        "info"
    } else if severity == 7 {
        "debug"
    } else {
        "unknown"
    }
}

fn put_part(fields: &mut FieldMap, name: &str, value: &str)
    ensures
        final(fields).texts() == with_part(old(fields).texts(), name@, value@),
{
    if !same_text(value, "-") {
        fields.put(name, value);
    }
}

/// Builds the record of a line out of its header and of what its timestamp stands for.
pub fn record_from_header(h: &Header, instant: Option<i64>) -> (r: PendingRecord)
    ensures
        r@ == record_with(h@, instant),
{
    let mut fields: FieldMap = FieldMap::empty();
    fields.put("facility", decimal_text(h.facility).as_str());
    fields.put("severity", decimal_text(h.severity).as_str());
    fields.put("level", severity_name(h.severity));
    put_part(&mut fields, "hostname", h.hostname);
    put_part(&mut fields, "app_name", h.app_name);
    put_part(&mut fields, "procid", h.procid);
    put_part(&mut fields, "msgid", h.msgid);
    let timestamp_ns: Option<i64> = if same_text(h.timestamp, "-") {
        None
    } else {
        instant
    };
    let message: &str = match strip_first(h.msg, '\u{feff}') {
        Some(t) => t,
        None => h.msg,
    };
    PendingRecord { timestamp_ns, message: message.to_string(), fields }
}

/// Parses a line, leaving its time open where the line gives none.
pub fn parse_message(line: &str) -> (r: PendingRecord)
    ensures
        r@ == message_of(line@),
{
    match try_parse_header(line) {
        None => PendingRecord {
            timestamp_ns: None,
            message: line.to_string(),
            fields: FieldMap::empty(),
        },
        Some(h) => {
            let instant: Option<i64> = parse_instant(h.timestamp);
            record_from_header(&h, instant)
        },
    }
}

/// Parses a line; where it gives no time, the wall clock does.
pub fn parse_rfc5424(line: &str) -> (r: WireRecord)
    ensures
        record::is_stamped(r@, message_of(line@)),
{
    let now: i64 = now_ns();
    let r: WireRecord = parse_message(line).stamp(now);
    assert(r@ == record::stamped(message_of(line@), now));
    r
}

/// What a line gives, if it is not blank.
pub open spec fn accepted(line: Seq<char>) -> Option<record::Pending> {
    if text::trimmed(line).len() == 0 {
        None
    } else {
        Some(message_of(line))
    }
}

/// Takes a line in: a blank one gives nothing.
pub fn accept_line(line: &str) -> (r: Option<PendingRecord>)
    ensures
        match r {
            Some(p) => text::trimmed(line@).len() > 0 && p@ == message_of(line@),
            None => text::trimmed(line@).len() == 0,
        },
        match r {
            Some(p) => accepted(line@) == Some(p@),
            None => accepted(line@) is None,
        },
{
    if trim(line).unicode_len() == 0 {
        None
    } else {
        Some(parse_message(line))
    }
}

/// `s` without the carriage returns and line feeds at its end.
pub open spec fn without_line_end(s: Seq<char>) -> Seq<char>
    decreases s.len(),
{
    if s.len() > 0 && (s.last() == '\r' || s.last() == '\n') {
        without_line_end(s.drop_last())
    } else {
        s
    }
}

/// Takes the line end off a line.
pub fn strip_line_end<'a>(line: &'a str) -> (r: &'a str)
    ensures
        r@ == without_line_end(line@),
{
    let chars: Vec<char> = to_chars(line);
    let mut j: usize = chars.len();
    assert(line@.take(j as int) =~= line@);
    while j > 0 && (chars[j - 1] == '\r' || chars[j - 1] == '\n')
        invariant
            j <= line@.len(),
            chars@ == line@,
            without_line_end(line@.take(j as int)) == without_line_end(line@),
        decreases j,
    {
        assert(line@.take(j as int).drop_last() =~= line@.take(j - 1));
        j = j - 1;
    }
    let r: &'a str = line.substring_char(0, j);
    assert(r@ =~= line@.take(j as int));
    r
}

/// A read that went beyond the bound before the end of its line.
pub open spec fn is_cut_short(line: Seq<char>, read: nat) -> bool {
    read > MAX_MESSAGE_BYTES && (line.len() == 0 || line.last() != '\n')
}

/// The line that was read in `read` bytes, without its end; nothing where there is none.
pub open spec fn line_read(line: Seq<char>, read: nat) -> Option<Seq<char>> {
    if read == 0 || is_cut_short(line, read) {
        None
    } else {
        Some(without_line_end(line))
    }
}

/// Takes a line that was read from a connection in `read` bytes, at most one more than the
/// bound. Nothing is left of the connection where nothing was read, or where the line goes
/// on beyond the bound: a part of a line is never taken for a line.
pub fn take_line<'a>(line: &'a str, read: usize) -> (r: Option<&'a str>)
    ensures
        match r {
            Some(s) => read > 0 && !is_cut_short(line@, read as nat) && s@ == without_line_end(
                line@,
            ),
            None => read == 0 || is_cut_short(line@, read as nat),
        },
        match r {
            Some(s) => line_read(line@, read as nat) == Some(s@),
            None => line_read(line@, read as nat) is None,
        },
{
    let chars: Vec<char> = to_chars(line);
    let n: usize = chars.len();
    if read == 0 || (read > MAX_MESSAGE_BYTES && (n == 0 || chars[n - 1] != '\n')) {
        None
    } else {
        Some(strip_line_end(line))
    }
}

/// Structured data is skipped whole, however many elements it has: what comes behind it,
/// and behind the space that follows it, is the message.
pub proof fn law_structured_data_is_skipped(elements: Seq<Seq<char>>, msg: Seq<char>)
    requires
        elements.len() > 0,
        forall|i: int| 0 <= i < elements.len() ==> is_element(#[trigger] elements[i]),
    ensures
        message_after_data(bracketed(elements) + seq![' '] + msg) == msg,
{
    let data = bracketed(elements);
    let s = data + seq![' '] + msg;
    assert(s.subrange(0, data.len() as int) =~= data);
    lemma_bracketed(elements, s, 0);
    let first = seq!['['] + elements[0] + seq![']'];
    assert(data =~= first + bracketed(elements.drop_first()));
    assert(s[0] == '[');
    text::lemma_trimmed_start_is(s);
    assert(s.skip(data.len() as int) =~= seq![' '] + msg);
    assert((seq![' '] + msg).skip(1) =~= msg);
}

/// The contents of an element, read inside quotes or outside of them: quotes close, and
/// outside of them there is no bracket. Inside them a backslash takes the next character
/// with it.
pub open spec fn is_contents(s: Seq<char>, in_quotes: bool) -> bool
    decreases s.len(),
{
    if s.len() == 0 {
        !in_quotes
    } else if s[0] == '\\' && in_quotes {
        s.len() >= 2 && is_contents(s.skip(2), true)
    } else if s[0] == '"' {
        is_contents(s.skip(1), !in_quotes)
    } else {
        (in_quotes || (s[0] != '[' && s[0] != ']')) && is_contents(s.skip(1), in_quotes)
    }
}

/// The contents of an element, without its brackets.
pub open spec fn is_element(s: Seq<char>) -> bool {
    is_contents(s, false)
}

/// Elements in their brackets, one after the other.
pub open spec fn bracketed(elements: Seq<Seq<char>>) -> Seq<char>
    decreases elements.len(),
{
    if elements.len() == 0 {
        seq![]
    } else {
        seq!['['] + elements[0] + seq![']'] + bracketed(elements.drop_first())
    }
}

proof fn lemma_contents_run(s: Seq<char>, i: int, end: int, in_quotes: bool)
    requires
        0 <= i <= end < s.len(),
        is_contents(s.subrange(i, end), in_quotes),
    ensures
        data_end(s, i, 1, in_quotes) == data_end(s, end, 1, false),
    decreases end - i,
{
    let e = s.subrange(i, end);
    if i < end {
        assert(e[0] == s[i]);
        if s[i] == '\\' && in_quotes {
            assert(e.skip(2) =~= s.subrange(i + 2, end));
            lemma_contents_run(s, i + 2, end, true);
        } else {
            assert(e.skip(1) =~= s.subrange(i + 1, end));
            lemma_contents_run(
                s,
                i + 1,
                end,
                if s[i] == '"' {
                    !in_quotes
                } else {
                    in_quotes
                },
            );
        }
    }
}

proof fn lemma_bracketed(elements: Seq<Seq<char>>, s: Seq<char>, from: int)
    requires
        elements.len() > 0,
        0 <= from,
        from + bracketed(elements).len() < s.len(),
        s.subrange(from, from + bracketed(elements).len()) == bracketed(elements),
        s[from + bracketed(elements).len()] == ' ',
        forall|i: int| 0 <= i < elements.len() ==> is_element(#[trigger] elements[i]),
    ensures
        data_end(s, from, 0, false) == Some(from + bracketed(elements).len() - 1),
    decreases elements.len(),
{
    let e = elements[0];
    let rest = elements.drop_first();
    let all = bracketed(elements);
    let tail = bracketed(rest);
    let end = from + 1 + e.len();
    assert(all =~= seq!['['] + e + seq![']'] + tail);
    assert(is_element(e));
    assert forall|j: int| 0 <= j < all.len() implies #[trigger] s[from + j] == all[j] by {
        assert(s.subrange(from, from + all.len())[j] == all[j]);
    }
    assert(s[from] == all[0]);
    assert(s[from + (1 + e.len())] == all[1 + e.len() as int]);
    assert(s.subrange(from + 1, end) =~= e) by {
        assert forall|j: int| 0 <= j < e.len() implies s[from + 1 + j] == e[j] by {
            assert(s[from + (1 + j)] == all[1 + j]);
        }
    }
    lemma_contents_run(s, from + 1, end, false);
    if rest.len() == 0 {
        assert(tail.len() == 0);
    } else {
        assert(tail =~= seq!['['] + rest[0] + seq![']'] + bracketed(rest.drop_first()));
        assert(s[from + (2 + e.len())] == all[2 + e.len() as int]);
        assert(s.subrange(end + 1, end + 1 + tail.len()) =~= tail) by {
            assert forall|j: int| 0 <= j < tail.len() implies s[end + 1 + j] == tail[j] by {
                assert(s[from + (2 + e.len() + j)] == all[2 + e.len() + j]);
            }
        }
        assert forall|i: int| 0 <= i < rest.len() implies is_element(#[trigger] rest[i]) by {
            assert(rest[i] == elements[i + 1]);
        }
        lemma_bracketed(rest, s, end + 1);
    }
}

/// A line that does not parse lands whole, with no fields and no time of its own.
pub proof fn law_unparsed_line_lands_raw(line: Seq<char>)
    requires
        header_of(line) is None,
    ensures
        message_of(line).message == line,
        message_of(line).fields == Map::<Seq<char>, Seq<char>>::empty(),
        message_of(line).timestamp_ns is None,
{
}

/// A header part of `-` never becomes a field, any other part does under its value.
pub proof fn law_nil_parts_are_no_fields(h: HeaderParts)
    ensures
        header_fields(h).dom().contains("hostname"@) <==> h.hostname != "-"@,
        header_fields(h).dom().contains("app_name"@) <==> h.app_name != "-"@,
        header_fields(h).dom().contains("procid"@) <==> h.procid != "-"@,
        header_fields(h).dom().contains("msgid"@) <==> h.msgid != "-"@,
        h.hostname != "-"@ ==> header_fields(h)["hostname"@] == h.hostname,
        h.app_name != "-"@ ==> header_fields(h)["app_name"@] == h.app_name,
        h.procid != "-"@ ==> header_fields(h)["procid"@] == h.procid,
        h.msgid != "-"@ ==> header_fields(h)["msgid"@] == h.msgid,
{
    reveal_strlit("facility");
    reveal_strlit("severity");
    reveal_strlit("level");
    reveal_strlit("hostname");
    reveal_strlit("app_name");
    reveal_strlit("procid");
    reveal_strlit("msgid");
    assert("hostname"@[0] == 'h');
    assert("app_name"@[0] == 'a');
    assert("procid"@[0] == 'p');
    assert("msgid"@[0] == 'm');
    assert("facility"@[0] == 'f');
    assert("severity"@[0] == 's');
    assert("level"@[0] == 'l');
}

/// A part, a space, and what follows.
pub open spec fn followed(part: Seq<char>, rest: Seq<char>) -> Seq<char> {
    part + seq![' '] + rest
}

/// A line with that priority in angle brackets, and what follows them.
pub open spec fn prioritised(pri: Seq<char>, tail: Seq<char>) -> Seq<char> {
    seq!['<'] + (pri + seq!['>'] + tail)
}

/// A well-formed line: the priority is eight times the facility and the severity, the five
/// parts behind the version are the time, the host, the application, the process and the
/// kind of message, and the message comes behind the structured data.
pub proof fn law_well_formed_line(
    pri: Seq<char>,
    version: Seq<char>,
    time: Seq<char>,
    host: Seq<char>,
    app: Seq<char>,
    procid: Seq<char>,
    msgid: Seq<char>,
    rest: Seq<char>,
)
    requires
        decimal::natural_of(pri) is Some,
        decimal::natural_of(pri)->0 <= 191,
        !version.contains(' '),
        !time.contains(' '),
        !host.contains(' '),
        !app.contains(' '),
        !procid.contains(' '),
        !msgid.contains(' '),
    ensures
        ({
            let line = prioritised(
                pri,
                followed(
                    version,
                    followed(
                        time,
                        followed(host, followed(app, followed(procid, followed(msgid, rest)))),
                    ),
                ),
            );
            let h = header_of(line)->0;
            &&& header_of(line) is Some
            &&& 8 * h.facility + h.severity == decimal::natural_of(pri)->0
            &&& h.severity < 8
            &&& h.timestamp == time
            &&& h.hostname == host
            &&& h.app_name == app
            &&& h.procid == procid
            &&& h.msgid == msgid
            &&& h.msg == message_after_data(rest)
            &&& time == "-"@ ==> message_of(line).timestamp_ns is None
            &&& time != "-"@ ==> message_of(line).timestamp_ns == clock::instant_of(time)
            &&& message_of(line).fields == header_fields(h)
        }),
{
    let t6 = followed(msgid, rest);
    let t5 = followed(procid, t6);
    let t4 = followed(app, t5);
    let t3 = followed(host, t4);
    let t2 = followed(time, t3);
    let tail = followed(version, t2);
    lemma_pri_is_cut(pri, tail);
    text::law_split_at_every_one(version, ' ', t2, 7);
    text::law_split_at_every_one(time, ' ', t3, 6);
    text::law_split_at_every_one(host, ' ', t4, 5);
    text::law_split_at_every_one(app, ' ', t5, 4);
    text::law_split_at_every_one(procid, ' ', t6, 3);
    text::law_split_at_every_one(msgid, ' ', rest, 2);
    let all = text::pieces_up_to(tail, ' ', 7);
    assert(all =~= seq![version, time, host, app, procid, msgid, rest]);
}

/// A well-formed line may end with the kind of message: its message is then empty.
pub proof fn law_line_without_a_message(
    pri: Seq<char>,
    version: Seq<char>,
    time: Seq<char>,
    host: Seq<char>,
    app: Seq<char>,
    procid: Seq<char>,
    msgid: Seq<char>,
)
    requires
        decimal::natural_of(pri) is Some,
        decimal::natural_of(pri)->0 <= 191,
        !version.contains(' '),
        !time.contains(' '),
        !host.contains(' '),
        !app.contains(' '),
        !procid.contains(' '),
        !msgid.contains(' '),
    ensures
        ({
            let line = prioritised(
                pri,
                followed(
                    version,
                    followed(time, followed(host, followed(app, followed(procid, msgid)))),
                ),
            );
            let h = header_of(line)->0;
            &&& header_of(line) is Some
            &&& h.msgid == msgid
            &&& h.msg == Seq::<char>::empty()
        }),
{
    let t5 = followed(procid, msgid);
    let t4 = followed(app, t5);
    let t3 = followed(host, t4);
    let t2 = followed(time, t3);
    let tail = followed(version, t2);
    let none = Seq::<char>::empty();
    lemma_pri_is_cut(pri, tail);
    text::law_split_at_every_one(version, ' ', t2, 7);
    text::law_split_at_every_one(time, ' ', t3, 6);
    text::law_split_at_every_one(host, ' ', t4, 5);
    text::law_split_at_every_one(app, ' ', t5, 4);
    text::law_split_at_every_one(procid, ' ', msgid, 3);
    text::law_split_at_every_one(msgid, ' ', none, 2);
    let few = text::pieces_up_to(tail, ' ', 7);
    assert(few =~= seq![version, time, host, app, procid, msgid]);
    text::lemma_trimmed_start_is(none);
}

proof fn lemma_pri_is_cut(pri: Seq<char>, tail: Seq<char>)
    requires
        decimal::natural_of(pri) is Some,
    ensures
        text::without_first(prioritised(pri, tail), '<') == Some(pri + seq!['>'] + tail),
        text::cut_at(pri + seq!['>'] + tail, '>') == Some((pri, tail)),
{
    assert(prioritised(pri, tail).skip(1) =~= pri + seq!['>'] + tail);
    assert forall|i: int| 0 <= i < pri.len() implies #[trigger] pri[i] != '>' by {
        decimal::law_only_digits_are_numbers(pri, i);
    }
    text::law_cut_at_the_first(pri, '>', tail, tail);
}

/// A line that does not start with a bracketed priority of at most 191, or has fewer than
/// six parts behind it, lands as it is.
pub proof fn law_other_lines_land_raw(line: Seq<char>, pri: Seq<char>, tail: Seq<char>)
    ensures
        line.len() == 0 || line[0] != '<' ==> message_of(line) == (record::Pending {
            timestamp_ns: None,
            message: line,
            fields: Map::empty(),
        }),
        !line.contains('>') ==> message_of(line) == (record::Pending {
            timestamp_ns: None,
            message: line,
            fields: Map::empty(),
        }),
        line == seq!['<'] + pri + seq!['>'] + tail && !pri.contains('>') && (decimal::natural_of(
            pri,
        ) is None || decimal::natural_of(pri)->0 > 191) ==> message_of(line) == (record::Pending {
            timestamp_ns: None,
            message: line,
            fields: Map::empty(),
        }),
{
    if line.len() > 0 && line[0] == '<' {
        let rest = line.skip(1);
        text::law_cut_at_the_first(Seq::empty(), '>', Seq::empty(), rest);
        if !line.contains('>') {
            assert(!rest.contains('>')) by {
                if rest.contains('>') {
                    let i = choose|i: int| 0 <= i < rest.len() && rest[i] == '>';
                    assert(line[i + 1] == '>');
                }
            }
        }
        if line == seq!['<'] + pri + seq!['>'] + tail && !pri.contains('>') {
            assert(rest =~= pri + seq!['>'] + tail);
            text::law_cut_at_the_first(pri, '>', tail, rest);
        }
    }
}

/// The fields of a header: facility and severity in decimal, the level by the name of the
/// severity, and nothing but those and the parts that are not nil.
pub proof fn law_header_fields(h: HeaderParts, name: Seq<char>)
    ensures
        header_fields(h).dom().contains("facility"@) && header_fields(h)["facility"@]
            == decimal::decimal(h.facility),
        header_fields(h).dom().contains("severity"@) && header_fields(h)["severity"@]
            == decimal::decimal(h.severity),
        header_fields(h).dom().contains("level"@) && h.severity < 8 ==> header_fields(h)["level"@]
            == seq![
            "emergency"@,
            "alert"@,
            "critical"@,
            "error"@,
            "warning"@,
            "notice"@,
            "info"@,
            "debug"@,
        ][h.severity as int],
        header_fields(h).dom().contains(name) ==> name == "facility"@ || name == "severity"@ || name
            == "level"@ || name == "hostname"@ || name == "app_name"@ || name == "procid"@ || name
            == "msgid"@,
{
    reveal_strlit("facility");
    reveal_strlit("severity");
    reveal_strlit("level");
    reveal_strlit("hostname");
    reveal_strlit("app_name");
    reveal_strlit("procid");
    reveal_strlit("msgid");
    assert("facility"@[0] == 'f');
    assert("severity"@[0] == 's');
    assert("level"@[0] == 'l');
    assert("hostname"@[0] == 'h');
    assert("app_name"@[0] == 'a');
    assert("procid"@[0] == 'p');
    assert("msgid"@[0] == 'm');
}

/// Nil structured data is one hyphen: what comes behind it, and behind the space that
/// follows it, is the message. A byte order mark before the message is dropped. Where there
/// is no structured data all of it is the message, and so it is where a bracket never
/// closes.
pub proof fn law_message_comes_behind_the_data(msg: Seq<char>, h: HeaderParts, instant: Option<i64>)
    ensures
        message_after_data(seq!['-', ' '] + msg) == msg,
        message_after_data(seq!['-']) == Seq::<char>::empty(),
        msg.len() > 0 && msg[0] != '-' && msg[0] != '[' && !text::is_white(msg[0])
            ==> message_after_data(msg) == msg,
        msg.len() > 0 && msg[0] == '[' && !msg.contains(']') ==> message_after_data(msg) == msg,
        h.msg == seq!['\u{feff}'] + msg ==> record_with(h, instant).message == msg,
        h.msg.len() > 0 && h.msg[0] != '\u{feff}' ==> record_with(h, instant).message == h.msg,
{
    let nil = seq!['-', ' '] + msg;
    text::lemma_trimmed_start_is(nil);
    assert(nil.skip(1) =~= seq![' '] + msg);
    assert((seq![' '] + msg).skip(1) =~= msg);
    text::lemma_trimmed_start_is(seq!['-']);
    assert(seq!['-'].skip(1) =~= Seq::<char>::empty());
    if msg.len() > 0 && !text::is_white(msg[0]) {
        text::lemma_trimmed_start_is(msg);
    }
    if msg.len() > 0 && msg[0] == '[' && !msg.contains(']') {
        lemma_never_closes(msg, 0, 0, false);
    }
    assert((seq!['\u{feff}'] + msg).skip(1) =~= msg);
}

proof fn lemma_never_closes(s: Seq<char>, i: int, depth: int, in_quotes: bool)
    requires
        0 <= i,
        !s.contains(']'),
    ensures
        data_end(s, i, depth, in_quotes) is None,
    decreases
            (if i < s.len() {
                s.len() - i
            } else {
                0
            }),
{
    if i < s.len() {
        assert(s.contains(s[i]));
        if s[i] == '\\' && in_quotes {
            lemma_never_closes(s, i + 2, depth, in_quotes);
        } else if s[i] == '"' {
            lemma_never_closes(s, i + 1, depth, !in_quotes);
        } else if s[i] == '[' && !in_quotes {
            lemma_never_closes(s, i + 1, depth + 1, in_quotes);
        } else {
            lemma_never_closes(s, i + 1, depth, in_quotes);
        }
    }
}

/// The end of a line is all the carriage returns and line feeds there, and nothing else; a
/// line is cut short exactly where more than 64 KiB were read of it and it has not ended.
pub proof fn law_line_ends(s: Seq<char>, end: Seq<char>, read: nat)
    requires
        forall|i: int| 0 <= i < end.len() ==> (#[trigger] end[i]) == '\r' || end[i] == '\n',
        s.len() > 0 ==> s.last() != '\r' && s.last() != '\n',
    ensures
        without_line_end(s + end) == s,
        is_cut_short(s, read) <==> read > 65_536,
        !is_cut_short(s.push('\n'), read),
    decreases end.len(),
{
    if end.len() == 0 {
        assert(s + end =~= s);
    } else {
        assert((s + end).drop_last() =~= s + end.drop_last());
        assert((s + end).last() == end[end.len() - 1]);
        law_line_ends(s, end.drop_last(), read);
    }
}

/// The contents of a header are its own.
pub proof fn law_headers_are_taken_as_they_are(h: Header)
    ensures
        h@.facility == h.facility,
        h@.severity == h.severity,
        h@.timestamp == h.timestamp@,
        h@.hostname == h.hostname@,
        h@.app_name == h.app_name@,
        h@.procid == h.procid@,
        h@.msgid == h.msgid@,
        h@.msg == h.msg@,
{
}

/// A line of nothing but white space gives no record; any other gives the one of its text as
/// it is, white space around it included.
pub proof fn law_only_blank_lines_are_left_out(line: Seq<char>, i: int)
    ensures
        (forall|j: int| 0 <= j < line.len() ==> text::is_white(#[trigger] line[j])) ==> accepted(
            line,
        ) is None,
        0 <= i < line.len() && !text::is_white(line[i]) ==> accepted(line) == Some(
            message_of(line),
        ),
{
    let none = Seq::<char>::empty();
    if forall|j: int| 0 <= j < line.len() ==> text::is_white(#[trigger] line[j]) {
        text::law_trimming_takes_the_ends_off(line, none, none);
        assert(line + none + none =~= line);
    }
    if 0 <= i < line.len() && !text::is_white(line[i]) {
        text::lemma_trimmed_keeps(line, i);
    }
}

/// A line that was read to its end is taken without that end, however long it is up to 64
/// KiB; nothing read, or a longer line that has not ended, is none.
pub proof fn law_whole_lines_are_read(s: Seq<char>, end: Seq<char>, read: nat)
    requires
        forall|i: int| 0 <= i < end.len() ==> (#[trigger] end[i]) == '\r' || end[i] == '\n',
        s.len() > 0 ==> s.last() != '\r' && s.last() != '\n',
    ensures
        line_read(s + end, 0) is None,
        0 < read <= 65_536 ==> line_read(s + end, read) == Some(s),
        read > 65_536 && end.len() > 0 && end.last() == '\n' ==> line_read(s + end, read) == Some(s),
        read > 65_536 && end.len() == 0 ==> line_read(s + end, read) is None,
{
    law_line_ends(s, end, read);
    if end.len() == 0 {
        assert(s + end =~= s);
    } else {
        assert((s + end).last() == end.last());
    }
}

} // verus!
