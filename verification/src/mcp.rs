//! The agent-facing tools: search with pages, context around a line, field summaries,
//! aggregates, anomalies.

use vstd::prelude::*;

use crate::decimal;
use crate::decimal::{decimal_text, parse_natural};
use crate::floattext;
use crate::hextext;
use crate::hextext::hex_encode;
use crate::listener::query_api;
use crate::order;
use crate::order::{order_of_bytes, Order};
use crate::query;
use crate::query::fields_match;
use crate::record::Record;
use crate::rollup::sketch;
use crate::rollup::sketch::FieldSketch;
use crate::rollup::space_saving;
use crate::sorting;
use crate::sorting::sort_by_rank;
use crate::storage;
use crate::storage::chronological;
use crate::strmap;
use crate::strmap::{FieldMap, StrMap};
use crate::text;
use crate::text::{concat, quoted, same_text};

verus! {

/// How many hits a search returns by default.
pub const DEFAULT_K: usize = 20;

/// How many lines of context are shown on each side by default.
pub const DEFAULT_CONTEXT_LINES: usize = 5;

/// How many characters of a message are shown.
pub const DEFAULT_MAX_MESSAGE_CHARS: usize = 240;

/// How far to each side of a line its context is looked for: ten minutes.
pub const WINDOW_NS: i64 = 10 * 60 * 1_000_000_000;

/// How many sample values a field summary shows.
pub const MAX_SAMPLE_VALUES: usize = 10;

/// How many times more often than before a shape has to come to be a spike.
pub const VOLUME_SPIKE_RATIO: u64 = 3;

// ---- messages ----

/// What is shown of a message: all of it, or its first characters and an ellipsis.
pub open spec fn bounded(message: Seq<char>) -> (Seq<char>, bool) {
    if message.len() <= DEFAULT_MAX_MESSAGE_CHARS {
        (message, false)
    } else {
        (message.take(DEFAULT_MAX_MESSAGE_CHARS as int).push('…'), true)
    }
}

/// Cuts a message to what is shown, and tells whether it was cut.
pub fn bound_message(message: &str) -> (r: (String, bool))
    ensures
        (r.0@, r.1) == bounded(message@),
{
    let n: usize = message.unicode_len();
    if n <= DEFAULT_MAX_MESSAGE_CHARS {
        (message.to_string(), false)
    } else {
        let mut out: String = message.substring_char(0, DEFAULT_MAX_MESSAGE_CHARS).to_string();
        out.push('…');
        assert(out@ =~= message@.take(DEFAULT_MAX_MESSAGE_CHARS as int).push('…'));
        (out, true)
    }
}

/// A message that is shown has at most one character more than the bound. One that fits is
/// shown whole; of one that does not, all that fits is.
pub proof fn law_shown_messages_are_bounded(message: Seq<char>)
    ensures
        bounded(message).0.len() <= DEFAULT_MAX_MESSAGE_CHARS + 1,
        bounded(message).1 <==> message.len() > DEFAULT_MAX_MESSAGE_CHARS,
        !bounded(message).1 ==> bounded(message).0 == message,
        bounded(message).1 ==> bounded(message).0.take(DEFAULT_MAX_MESSAGE_CHARS as int)
            == message.take(DEFAULT_MAX_MESSAGE_CHARS as int),
{
    if bounded(message).1 {
        assert(bounded(message).0.take(DEFAULT_MAX_MESSAGE_CHARS as int) =~= message.take(
            DEFAULT_MAX_MESSAGE_CHARS as int,
        ));
    }
}

// ---- search ----

/// What a search asks for.
#[derive(Debug)]
pub struct SearchLogsParams {
    pub start_ns: i64,
    pub end_ns: i64,
    pub q: Option<String>,
    pub labels: FieldMap,
    pub k: usize,
    pub cursor: Option<String>,
}

/// Where a page begins: at the number that its cursor writes, else at the front.
pub open spec fn offset_of(cursor: Option<Seq<char>>) -> nat {
    match cursor {
        Some(c) => match decimal::natural_within(c, usize::MAX as int) {
            Some(n) => n,
            None => 0,
        },
        None => 0,
    }
}

pub open spec fn opt_view(s: Option<String>) -> Option<Seq<char>> {
    match s {
        Some(t) => Some(t@),
        None => None,
    }
}

/// How many text hits are fetched for a page.
pub open spec fn fetched(offset: nat, k: nat) -> int {
    (offset + k as int + 1) % (usize::MAX + 1)
}

impl SearchLogsParams {
    /// Where the page begins.
    pub fn offset(&self) -> (r: usize)
        ensures
            r == offset_of(opt_view(self.cursor)),
    {
        match &self.cursor {
            Some(c) => match parse_natural(c.as_str(), usize::MAX as u64) {
                Some(n) => n as usize,
                None => 0,
            },
            None => 0,
        }
    }

    /// How many text hits are fetched: all up to the page's end, and one more. The sum
    /// wraps around.
    pub fn fetch(&self) -> (r: usize)
        ensures
            r == (offset_of(opt_view(self.cursor)) + self.k + 1) % (usize::MAX + 1),
            r == fetched(offset_of(opt_view(self.cursor)), self.k as nat),
    {
        let offset: usize = self.offset();
        proof {
            let size = usize::MAX + 1;
            let sum = offset + self.k + 1;
            if sum < size {
                vstd::arithmetic::div_mod::lemma_small_mod(sum as nat, size as nat);
            } else {
                vstd::arithmetic::div_mod::lemma_mod_add_multiples_vanish(sum - size, size);
                vstd::arithmetic::div_mod::lemma_small_mod((sum - size) as nat, size as nat);
            }
        }
        offset.wrapping_add(self.k).wrapping_add(1)
    }
}

/// A line that a search may return: its key, the record, and the bits of its score.
#[derive(Debug)]
pub struct SearchCandidate {
    pub key: Vec<u8>,
    pub record: Record,
    pub score_bits: Option<u32>,
}

/// A line that a search returns.
#[derive(Debug)]
pub struct LogHit {
    pub doc_id: String,
    pub timestamp_ns: i64,
    pub message: String,
    pub truncated: bool,
    pub score_bits: Option<u32>,
    pub fields: FieldMap,
}

/// What a search returns.
#[derive(Debug)]
pub struct SearchLogsResult {
    pub hits: Vec<LogHit>,
    pub next_cursor: Option<String>,
    /// How many lines were looked at before the labels were.
    pub considered: usize,
}

pub open spec fn labeled(labels: Map<Seq<char>, Seq<char>>) -> spec_fn(SearchCandidate) -> bool {
    |c: SearchCandidate| query::satisfies(c.record.fields.texts(), labels)
}

/// Keeps the candidates that have all labels, in their order.
pub fn with_labels(candidates: Vec<SearchCandidate>, labels: &FieldMap) -> (r: Vec<SearchCandidate>)
    ensures
        r@ == candidates@.filter(labeled(labels.texts())),
{
    let ghost all = candidates@;
    let ghost keep = labeled(labels.texts());
    let mut out: Vec<SearchCandidate> = Vec::new();
    proof {
        reveal(Seq::filter);
    }
    for c in it: candidates.into_iter()
        invariant
            it.seq() == all,
            keep == labeled(labels.texts()),
            out@ == all.take(it.index()).filter(keep),
    {
        proof {
            reveal(Seq::filter);
            assert(all.take(it.index() + 1).drop_last() =~= all.take(it.index()));
        }
        if fields_match(&c.record.fields, labels) {
            out.push(c);
        }
    }
    assert(all.take(all.len() as int) =~= all);
    out
}

/// `hit` shows the candidate.
pub open spec fn shows(hit: LogHit, c: SearchCandidate) -> bool {
    &&& hit.doc_id@ == hextext::hex_text(c.key@)
    &&& hit.timestamp_ns == c.record.timestamp_ns
    &&& (hit.message@, hit.truncated) == bounded(c.record.message@)
    &&& hit.score_bits == c.score_bits
    &&& hit.fields.texts() == c.record.fields.texts()
}

/// How many of `total` hits a page holds that begins at `offset`.
pub open spec fn page_len(total: nat, offset: nat, k: nat) -> nat {
    if offset >= total {
        0
    } else if total - offset < k {
        (total - offset) as nat
    } else {
        k
    }
}

/// Where the next page begins, if there is more.
pub open spec fn next_offset(total: nat, offset: nat, k: nat) -> Option<nat> {
    if offset + page_len(total, offset, k) < total {
        Some(offset + page_len(total, offset, k))
    } else {
        None
    }
}

fn show(c: SearchCandidate) -> (r: LogHit)
    ensures
        shows(r, c),
{
    let (message, truncated): (String, bool) = bound_message(c.record.message.as_str());
    LogHit {
        doc_id: hex_encode(&c.key),
        timestamp_ns: c.record.timestamp_ns,
        message,
        truncated,
        score_bits: c.score_bits,
        fields: c.record.fields,
    }
}

/// Cuts a page out of all hits.
pub fn paginate(
    hits: Vec<SearchCandidate>,
    offset: usize,
    k: usize,
    considered: usize,
) -> (r: SearchLogsResult)
    ensures
        r.hits@.len() == page_len(hits@.len(), offset as nat, k as nat),
        forall|i: int| 0 <= i < r.hits@.len() ==> shows(#[trigger] r.hits@[i], hits@[offset + i]),
        match next_offset(hits@.len(), offset as nat, k as nat) {
            Some(n) => r.next_cursor matches Some(c) && c@ == decimal::decimal(n),
            None => r.next_cursor is None,
        },
        r.considered == considered,
{
    let total: usize = hits.len();
    let ghost all = hits@;
    let mut page: Vec<LogHit> = Vec::new();
    let mut i: usize = 0;
    for c in it: hits.into_iter()
        invariant
            it.seq() == all,
            total == all.len(),
            i == it.index(),
            page@.len() == page_len(i as nat, offset as nat, k as nat),
            forall|j: int| 0 <= j < page@.len() ==> shows(#[trigger] page@[j], all[offset + j]),
    {
        if i >= offset && page.len() < k {
            let hit: LogHit = show(c);
            page.push(hit);
        }
        i = i + 1;
    }
    let next_cursor: Option<String> = if offset < total && page.len() < total - offset {
        Some(decimal_text((offset + page.len()) as u64))
    } else {
        None
    };
    SearchLogsResult { hits: page, next_cursor, considered }
}

/// Following the cursors from the front visits every hit once: pages of `k` follow each
/// other without a gap, and the page that hit `i` belongs to holds it.
pub proof fn law_pages_cover_all_hits(total: nat, k: nat, i: nat)
    requires
        k > 0,
        i < total,
    ensures
        (i / k) * k <= i < (i / k) * k + page_len(total, (i / k) * k, k),
        forall|n: nat|
            0 < n * k < total ==> #[trigger] next_offset(total, ((n - 1) * k) as nat, k) == Some(
                n * k,
            ),
{
    let n = i / k;
    let x = i as int;
    let d = k as int;
    vstd::arithmetic::div_mod::lemma_fundamental_div_mod(x, d);
    assert(n * k <= i < n * k + k) by (nonlinear_arith)
        requires
            x == d * (x / d) + x % d,
            0 <= x % d < d,
            n == x / d,
            x == i,
            d == k,
    ;
    assert forall|n: nat| 0 < n * k < total implies #[trigger] next_offset(
        total,
        ((n - 1) * k) as nat,
        k,
    ) == Some(n * k) by {
        assert(n > 0) by (nonlinear_arith)
            requires
                0 < n * k,
        ;
        assert((n - 1) * k == n * k - k) by (nonlinear_arith);
        assert(n * k >= k) by (nonlinear_arith)
            requires
                n > 0,
        ;
    }
}

// ---- context ----

/// The context of a line is within ten minutes of it.
pub open spec fn context_window(timestamp_ns: int) -> (int, int) {
    (
        if timestamp_ns - WINDOW_NS < 0 {
            0
        } else {
            timestamp_ns - WINDOW_NS
        },
        if timestamp_ns + WINDOW_NS > i64::MAX {
            i64::MAX as int
        } else {
            timestamp_ns + WINDOW_NS
        },
    )
}

/// The earliest time of a line's context; never before the epoch.
pub fn context_start(timestamp_ns: i64) -> (r: i64)
    ensures
        r == if timestamp_ns - WINDOW_NS < 0 {
            0
        } else {
            timestamp_ns - WINDOW_NS
        },
        timestamp_ns >= 600_000_000_000 ==> r == timestamp_ns - 600_000_000_000,
        timestamp_ns < 600_000_000_000 ==> r == 0,
        r == context_window(timestamp_ns as int).0,
{
    if timestamp_ns < WINDOW_NS {
        0
    } else {
        timestamp_ns - WINDOW_NS
    }
}

/// The end of a line's context, as far as times go.
pub fn context_end(timestamp_ns: i64) -> (r: i64)
    ensures
        r == if timestamp_ns + WINDOW_NS > i64::MAX {
            i64::MAX as int
        } else {
            timestamp_ns + WINDOW_NS
        },
        timestamp_ns + 600_000_000_000 <= i64::MAX ==> r == timestamp_ns + 600_000_000_000,
        timestamp_ns + 600_000_000_000 > i64::MAX ==> r == i64::MAX,
        r == context_window(timestamp_ns as int).1,
{
    if timestamp_ns > i64::MAX - WINDOW_NS {
        i64::MAX
    } else {
        timestamp_ns + WINDOW_NS
    }
}

/// A line of context.
#[derive(Debug)]
pub struct ContextLine {
    pub doc_id: String,
    pub timestamp_ns: i64,
    pub message: String,
    pub is_anchor: bool,
}

/// The entry belongs to the stream of those fields.
pub open spec fn in_stream(fields: Map<Seq<char>, Seq<char>>) -> spec_fn((Vec<u8>, Record)) -> bool {
    |e: (Vec<u8>, Record)| e.1.fields.texts() == fields
}

/// The place of the first entry with that key; the front if there is none.
pub open spec fn anchor_place(s: Seq<(Vec<u8>, Record)>, key: Seq<u8>) -> int {
    if exists|i: int| 0 <= i < s.len() && (#[trigger] s[i]).0@ == key {
        least_place(s, key)
    } else {
        0
    }
}

pub open spec fn least_place(s: Seq<(Vec<u8>, Record)>, key: Seq<u8>) -> int {
    choose|i: int|
        0 <= i < s.len() && (#[trigger] s[i]).0@ == key && forall|j: int|
            0 <= j < i ==> (#[trigger] s[j]).0@ != key
}

/// The first place of the context of `n` lines on each side.
pub open spec fn context_from(place: int, n: nat) -> int {
    if place < n {
        0
    } else {
        place - n
    }
}

/// The end of the context of `n` lines on each side.
pub open spec fn context_to(place: int, n: nat, len: nat) -> int {
    if place + n + 1 < len {
        place + n + 1
    } else {
        len as int
    }
}

/// `line` shows the entry; the anchor is the entry of that key.
pub open spec fn shows_line(line: ContextLine, e: (Vec<u8>, Record), key: Seq<u8>) -> bool {
    &&& line.doc_id@ == hextext::hex_text(e.0@)
    &&& line.timestamp_ns == e.1.timestamp_ns
    &&& line.message@ == e.1.message@
    &&& line.is_anchor == (e.0@ == key)
}

/// The lines around the anchor, out of its stream by time.
pub open spec fn is_context(
    lines: Seq<ContextLine>,
    stream: Seq<(Vec<u8>, Record)>,
    key: Seq<u8>,
    n: nat,
) -> bool {
    let place = anchor_place(stream, key);
    let from = context_from(place, n);
    let to = context_to(place, n, stream.len());
    &&& lines.len() == if from <= to {
        to - from
    } else {
        0
    }
    &&& forall|i: int|
        0 <= i < lines.len() ==> shows_line(#[trigger] lines[i], stream[from + i], key)
}

fn same_key(a: &[u8], b: &[u8]) -> (r: bool)
    ensures
        r == (a@ == b@),
{
    match order_of_bytes(a, b) {
        Order::Equal => true,
        _ => false,
    }
}

fn find_anchor(stream: &Vec<(Vec<u8>, Record)>, key: &[u8]) -> (r: usize)
    ensures
        r == anchor_place(stream@, key@),
        r < stream@.len() || r == 0,
{
    let mut i: usize = 0;
    while i < stream.len()
        invariant
            i <= stream@.len(),
            forall|j: int| 0 <= j < i ==> (#[trigger] stream@[j]).0@ != key@,
        decreases stream.len() - i,
    {
        if same_key(&stream[i].0, key) {
            proof {
                let l = least_place(stream@, key@);
                assert(stream@[i as int].0@ == key@);
                assert(0 <= l < stream@.len() && stream@[l].0@ == key@ && forall|j: int|
                    0 <= j < l ==> (#[trigger] stream@[j]).0@ != key@);
            }
            return i;
        }
        i = i + 1;
    }
    0
}

/// Shows the lines around an anchor: those of its window that have its very fields, by
/// time, `n` on each side.
pub fn context_lines(
    window: Vec<(Vec<u8>, Record)>,
    anchor_key: &[u8],
    anchor_fields: &FieldMap,
    n: usize,
) -> (r: Vec<ContextLine>)
    ensures
        exists|stream: Seq<(Vec<u8>, Record)>| #[trigger]
            sorting::is_stable_sort(
                stream,
                window@.filter(in_stream(anchor_fields.texts())),
                storage::time_rank(),
            ) && is_context(r@, stream, anchor_key@, n as nat),
{
    let ghost all = window@;
    let ghost keep = in_stream(anchor_fields.texts());
    let mut same: Vec<(Vec<u8>, Record)> = Vec::new();
    proof {
        reveal(Seq::filter);
    }
    for e in it: window.into_iter()
        invariant
            it.seq() == all,
            keep == in_stream(anchor_fields.texts()),
            same@ == all.take(it.index()).filter(keep),
    {
        proof {
            reveal(Seq::filter);
            assert(all.take(it.index() + 1).drop_last() =~= all.take(it.index()));
        }
        if e.1.fields.same_texts(anchor_fields) {
            same.push(e);
        }
    }
    assert(all.take(all.len() as int) =~= all);
    let stream: Vec<(Vec<u8>, Record)> = chronological(same);
    let place: usize = find_anchor(&stream, anchor_key);
    let len: usize = stream.len();
    let from: usize = if place < n {
        0
    } else {
        place - n
    };
    let to: usize = if place < len && n < len - place - 1 {
        place + n + 1
    } else {
        len
    };
    assert(from == context_from(place as int, n as nat));
    assert(to == context_to(place as int, n as nat, len as nat));
    let mut lines: Vec<ContextLine> = Vec::new();
    let mut i: usize = from;
    while i < to
        invariant
            to <= stream@.len(),
            from <= i,
            i <= to || i == from,
            lines@.len() == i - from,
            forall|j: int|
                0 <= j < lines@.len() ==> shows_line(
                    #[trigger] lines@[j],
                    stream@[from + j],
                    anchor_key@,
                ),
        decreases to - i,
    {
        let e: &(Vec<u8>, Record) = &stream[i];
        let is_anchor: bool = same_key(&e.0, anchor_key);
        lines.push(
            ContextLine {
                doc_id: hex_encode(&e.0),
                timestamp_ns: e.1.timestamp_ns,
                message: e.1.message.as_str().to_string(),
                is_anchor,
            },
        );
        i = i + 1;
    }
    assert(is_context(lines@, stream@, anchor_key@, n as nat));
    lines
}

/// Where the anchor's stream holds the anchor, its context shows it, as the anchor, with at
/// most `n` lines on each side.
pub proof fn law_context_holds_its_anchor(
    lines: Seq<ContextLine>,
    stream: Seq<(Vec<u8>, Record)>,
    key: Seq<u8>,
    n: nat,
    i: int,
)
    requires
        is_context(lines, stream, key, n),
        0 <= i < stream.len(),
        stream[i].0@ == key,
    ensures
        lines.len() <= 2 * n + 1,
        exists|j: int| 0 <= j < lines.len() && (#[trigger] lines[j]).is_anchor,
{
    lemma_least_place(stream, key, i);
    let place = least_place(stream, key);
    let from = context_from(place, n);
    assert(shows_line(lines[place - from], stream[from + (place - from)], key));
}

proof fn lemma_least_place(s: Seq<(Vec<u8>, Record)>, key: Seq<u8>, i: int)
    requires
        0 <= i < s.len(),
        s[i].0@ == key,
    ensures
        0 <= least_place(s, key) < s.len(),
        s[least_place(s, key)].0@ == key,
    decreases i,
{
    if exists|j: int| 0 <= j < i && (#[trigger] s[j]).0@ == key {
        let j = choose|j: int| 0 <= j < i && (#[trigger] s[j]).0@ == key;
        lemma_least_place(s, key, j);
    } else {
        assert(forall|j: int| 0 <= j < i ==> (#[trigger] s[j]).0@ != key);
    }
}

// ---- field summaries ----

/// What is known of a field in a window.
#[derive(Debug, PartialEq)]
pub struct FieldSummary {
    pub field: String,
    pub distinct_values: usize,
    pub sample_values: Vec<String>,
    /// Whether the number of values is a rollup's estimate.
    pub estimated: bool,
}

/// The values of a field.
pub open spec fn field_values(records: Seq<Record>, field: Seq<char>) -> Map<Seq<char>, ()> {
    Map::new(|v: Seq<char>| has_value(records, field, v), |v: Seq<char>| ())
}

pub open spec fn has_value(records: Seq<Record>, field: Seq<char>, v: Seq<char>) -> bool {
    exists|i: int|
        0 <= i < records.len() && (#[trigger] records[i]).fields.texts().dom().contains(field)
            && records[i].fields.texts()[field] == v
}

pub open spec fn keys_of(pairs: Seq<(Seq<char>, ())>) -> Seq<Seq<char>> {
    pairs.map_values(|p: (Seq<char>, ())| p.0)
}

pub open spec fn text_views(v: Seq<String>) -> Seq<Seq<char>> {
    v.map_values(|s: String| s@)
}

fn distinct_values(records: &Vec<Record>, field: &str) -> (r: StrMap<()>)
    ensures
        r@ == field_values(records@, field@),
{
    let mut out: StrMap<()> = StrMap::new();
    let mut i: usize = 0;
    assert(out@ =~= field_values(records@.take(0), field@));
    while i < records.len()
        invariant
            i <= records@.len(),
            out@ == field_values(records@.take(i as int), field@),
        decreases records.len() - i,
    {
        let ghost head = records@.take(i as int);
        let ghost more = records@.take(i + 1);
        let value: Option<&str> = records[i].fields.get_text(field);
        match value {
            Some(v) => out.insert(v.to_string(), ()),
            None => {},
        }
        proof {
            let fields = records@[i as int].fields.texts();
            assert forall|v: Seq<char>| has_value(more, field@, v) == (has_value(head, field@, v)
                || (fields.dom().contains(field@) && fields[field@] == v)) by {
                if has_value(more, field@, v) {
                    let j = choose|j: int|
                        0 <= j < more.len() && (#[trigger] more[j]).fields.texts().dom().contains(
                            field@,
                        ) && more[j].fields.texts()[field@] == v;
                    if j < i {
                        assert(head[j] == more[j]);
                    }
                }
                if has_value(head, field@, v) {
                    let j = choose|j: int|
                        0 <= j < head.len() && (#[trigger] head[j]).fields.texts().dom().contains(
                            field@,
                        ) && head[j].fields.texts()[field@] == v;
                    assert(more[j] == head[j]);
                }
                if fields.dom().contains(field@) && fields[field@] == v {
                    assert(more[i as int] == records@[i as int]);
                }
            }
            assert(out@ =~= field_values(more, field@));
        }
        i = i + 1;
    }
    assert(records@.take(i as int) =~= records@);
    out
}

/// The values of a field that are shown: the first of them in order.
pub open spec fn samples_of(records: Seq<Record>, field: Seq<char>) -> Seq<Seq<char>> {
    keys_of(
        space_saving::first(
            strmap::listing(field_values(records, field)),
            MAX_SAMPLE_VALUES as nat,
        ),
    )
}

/// Sums up a field: by a rollup's estimate where there is one, else by the values that it
/// has in the records, the least ones as samples.
pub fn summarize_field(field: &str, estimate: Option<usize>, records: &Vec<Record>) -> (r:
    FieldSummary)
    ensures
        r.field@ == field@,
        match estimate {
            Some(n) => r.estimated && r.distinct_values == n && r.sample_values@.len() == 0,
            None => {
                let values = strmap::listing(field_values(records@, field@));
                &&& !r.estimated
                &&& r.distinct_values == values.len()
                &&& strmap::is_listing(values, field_values(records@, field@))
                &&& text_views(r.sample_values@) == keys_of(
                    space_saving::first(values, MAX_SAMPLE_VALUES as nat),
                )
                &&& text_views(r.sample_values@) == samples_of(records@, field@)
            },
        },
{
    match estimate {
        Some(n) => FieldSummary {
            field: field.to_string(),
            distinct_values: n,
            sample_values: Vec::new(),
            estimated: true,
        },
        None => {
            let values: StrMap<()> = distinct_values(records, field);
            let n: usize = values.len();
            let ghost all = strmap::listing(values@);
            let mut samples: Vec<String> = Vec::new();
            let mut i: usize = 0;
            while i < n && i < MAX_SAMPLE_VALUES
                invariant
                    i <= n,
                    i <= MAX_SAMPLE_VALUES,
                    n == all.len(),
                    all == strmap::listing(values@),
                    samples@.len() == i,
                    forall|j: int| 0 <= j < i ==> (#[trigger] samples@[j])@ == all[j].0,
                decreases n - i,
            {
                samples.push(values.at(i).0.as_str().to_string());
                i = i + 1;
            }
            assert(text_views(samples@) =~= keys_of(
                space_saving::first(all, MAX_SAMPLE_VALUES as nat),
            ));
            FieldSummary {
                field: field.to_string(),
                distinct_values: n,
                sample_values: samples,
                estimated: false,
            }
        },
    }
}

pub open spec fn source_text(estimated: bool) -> Seq<char> {
    if estimated {
        "hll_rollup_estimate"@
    } else {
        "exact_in_window"@
    }
}

impl FieldSummary {
    /// Where the number of values comes from.
    pub fn cardinality_source(&self) -> (r: &'static str)
        ensures
            r@ == source_text(self.estimated),
    {
        if self.estimated {
            "hll_rollup_estimate"
        } else {
            "exact_in_window"
        }
    }
}

// ---- aggregates ----

/// The answer of the aggregate tool; nothing where the field is rolled up otherwise.
/// Estimates are the bits of a float.
#[derive(Debug)]
pub enum ToolAnswer {
    Count(Option<StrMap<u64>>),
    Cardinality(Option<u64>),
    TopK(Option<Vec<(String, u64)>>),
    Quantile(Option<u64>),
}

/// The answer is the one that the operation asks for.
pub open spec fn tool_answers(
    s: FieldSketch,
    op: Seq<char>,
    q: Option<&str>,
    k: nat,
    a: ToolAnswer,
) -> bool {
    match a {
        ToolAnswer::Count(r) => op == "count"@ && (match r {
            Some(counts) => s matches FieldSketch::Exact(m) && counts@ == m@,
            None => !(s is Exact),
        }),
        ToolAnswer::Cardinality(r) => op == "cardinality"@ && (match r {
            Some(bits) => s matches FieldSketch::Hll(h) && sketch::is_estimate(*h, bits),
            None => !(s is Hll),
        }),
        ToolAnswer::TopK(r) => op == "topk"@ && (match r {
            Some(top) => s matches FieldSketch::TopK(ss) && space_saving::count_views(top@)
                == space_saving::first(space_saving::ranking(ss@), k),
            None => !(s is TopK),
        }),
        ToolAnswer::Quantile(r) => op == "quantile"@ && (q matches Some(t) && (match r {
            Some(bits) => query_api::has_quantile(s, t@) && sketch::is_quantile(
                *s->DDSketch_0,
                t@,
                bits,
            ),
            None => !query_api::has_quantile(s, t@),
        })),
    }
}

/// Why the aggregate tool refuses, if it does.
pub open spec fn tool_refusal(op: Seq<char>, has_q: bool) -> Option<Seq<char>> {
    if op == "count"@ || op == "cardinality"@ || op == "topk"@ {
        None
    } else if op == "quantile"@ {
        if has_q {
            None
        } else {
            Some("missing q for quantile"@)
        }
    } else {
        Some("unknown op "@ + text::debug_text(op))
    }
}

/// Answers the aggregate tool from a merged sketch.
pub fn tool_aggregate(s: &mut FieldSketch, op: &str, q: Option<&str>, k: usize) -> (r: Result<
    ToolAnswer,
    String,
>)
    requires
        old(s).sound(),
        q matches Some(t) ==> floattext::is_float_text(t@),
    ensures
        match r {
            Ok(a) => tool_refusal(op@, q is Some) is None && tool_answers(
                *old(s),
                op@,
                q,
                k as nat,
                a,
            ),
            Err(e) => tool_refusal(op@, q is Some) == Some(e@),
        },
        query_api::leaves(*old(s), op@, *final(s)),
        final(s).sound(),
{
    proof {
        reveal_strlit("count");
        reveal_strlit("cardinality");
        reveal_strlit("topk");
        reveal_strlit("quantile");
        assert("count"@.len() == 5);
        assert("cardinality"@.len() == 11);
        assert("topk"@.len() == 4);
        assert("quantile"@.len() == 8);
    }
    if same_text(op, "count") {
        Ok(ToolAnswer::Count(s.exact_counts()))
    } else if same_text(op, "cardinality") {
        Ok(ToolAnswer::Cardinality(s.hll_estimate()))
    } else if same_text(op, "topk") {
        Ok(ToolAnswer::TopK(s.top_k(k)))
    } else if same_text(op, "quantile") {
        match q {
            Some(t) => Ok(ToolAnswer::Quantile(s.quantile(t))),
            None => Err("missing q for quantile".to_string()),
        }
    } else {
        Err(concat("unknown op ", quoted(op).as_str()))
    }
}

// ---- anomalies ----

/// `x` as far as 64-bit times go.
pub open spec fn clamped(x: int) -> int {
    if x > i64::MAX {
        i64::MAX as int
    } else if x < i64::MIN {
        i64::MIN as int
    } else {
        x
    }
}

fn clamp_ns(x: i128) -> (r: i64)
    ensures
        r == clamped(x as int),
{
    if x > i64::MAX as i128 {
        i64::MAX
    } else if x < i64::MIN as i128 {
        i64::MIN
    } else {
        x as i64
    }
}

/// The window to compare a window with.
pub open spec fn baseline_of(
    start_ns: int,
    end_ns: int,
    baseline_start_ns: Option<i64>,
    baseline_end_ns: Option<i64>,
) -> (int, int) {
    (
        match baseline_start_ns {
            Some(s) => s as int,
            None => clamped(start_ns - clamped(end_ns - start_ns)),
        },
        match baseline_end_ns {
            Some(e) => e as int,
            None => start_ns,
        },
    )
}

/// The window to compare with: as given, else the one of the same length just before.
pub fn baseline_window(
    start_ns: i64,
    end_ns: i64,
    baseline_start_ns: Option<i64>,
    baseline_end_ns: Option<i64>,
) -> (r: (i64, i64))
    ensures
        r.0 == (match baseline_start_ns {
            Some(s) => s as int,
            None => clamped(start_ns - clamped(end_ns - start_ns)),
        }),
        r.1 == (match baseline_end_ns {
            Some(e) => e,
            None => start_ns,
        }),
        (r.0 as int, r.1 as int) == baseline_of(
            start_ns as int,
            end_ns as int,
            baseline_start_ns,
            baseline_end_ns,
        ),
{
    let span: i64 = clamp_ns(end_ns as i128 - start_ns as i128);
    let start: i64 = match baseline_start_ns {
        Some(s) => s,
        None => clamp_ns(start_ns as i128 - span as i128),
    };
    let end: i64 = match baseline_end_ns {
        Some(e) => e,
        None => start_ns,
    };
    (start, end)
}

/// How many records have that template.
pub open spec fn count_of(records: Seq<Record>, id: u64) -> nat
    decreases records.len(),
{
    if records.len() == 0 {
        0
    } else {
        count_of(records.drop_last(), id) + if records.last().template_id == id {
            1nat
        } else {
            0nat
        }
    }
}

/// The message of the first record with that template.
pub open spec fn first_message(records: Seq<Record>, id: u64) -> Seq<char>
    decreases records.len(),
{
    if records.len() == 0 {
        seq![]
    } else if count_of(records.drop_last(), id) > 0 {
        first_message(records.drop_last(), id)
    } else {
        records.last().message@
    }
}

/// How often a template comes, and its first message.
#[derive(Debug)]
pub struct Tally {
    pub template_id: u64,
    pub count: usize,
    pub message: String,
}

/// The tallies of records: one for each template, by ascending id.
pub open spec fn is_tally(tallies: Seq<Tally>, records: Seq<Record>) -> bool {
    &&& forall|i: int, j: int|
        0 <= i < j < tallies.len() ==> (#[trigger] tallies[i]).template_id < (
        #[trigger] tallies[j]).template_id
    &&& forall|i: int|
        0 <= i < tallies.len() ==> (#[trigger] tallies[i]).count == count_of(
            records,
            tallies[i].template_id,
        ) && tallies[i].count > 0 && tallies[i].message@ == first_message(
            records,
            tallies[i].template_id,
        )
    &&& forall|id: u64| #[trigger] count_of(records, id) > 0 ==> tallied(tallies, id)
}

pub open spec fn tallied(tallies: Seq<Tally>, id: u64) -> bool {
    exists|i: int| 0 <= i < tallies.len() && (#[trigger] tallies[i]).template_id == id
}

proof fn lemma_count_bound(records: Seq<Record>, id: u64)
    ensures
        count_of(records, id) <= records.len(),
    decreases records.len(),
{
    if records.len() > 0 {
        lemma_count_bound(records.drop_last(), id);
    }
}

/// The place of a template among tallies, or where it belongs.
fn tally_place(tallies: &Vec<Tally>, id: u64) -> (r: usize)
    requires
        forall|i: int, j: int|
            0 <= i < j < tallies@.len() ==> (#[trigger] tallies@[i]).template_id < (
            #[trigger] tallies@[j]).template_id,
    ensures
        r <= tallies@.len(),
        forall|i: int| 0 <= i < r ==> (#[trigger] tallies@[i]).template_id < id,
        forall|i: int| r <= i < tallies@.len() ==> (#[trigger] tallies@[i]).template_id >= id,
{
    let mut lo: usize = 0;
    let mut hi: usize = tallies.len();
    while lo < hi
        invariant
            lo <= hi <= tallies@.len(),
            forall|i: int, j: int|
                0 <= i < j < tallies@.len() ==> (#[trigger] tallies@[i]).template_id < (
                #[trigger] tallies@[j]).template_id,
            forall|i: int| 0 <= i < lo ==> (#[trigger] tallies@[i]).template_id < id,
            forall|i: int| hi <= i < tallies@.len() ==> (#[trigger] tallies@[i]).template_id >= id,
        decreases hi - lo,
    {
        let mid: usize = lo + (hi - lo) / 2;
        if tallies[mid].template_id < id {
            lo = mid + 1;
        } else {
            hi = mid;
        }
    }
    lo
}

/// Counts the templates of records.
pub fn tally(records: &Vec<Record>) -> (r: Vec<Tally>)
    ensures
        is_tally(r@, records@),
{
    let mut out: Vec<Tally> = Vec::new();
    let mut i: usize = 0;
    assert forall|id: u64| #[trigger] count_of(records@.take(0), id) == 0 by {}
    while i < records.len()
        invariant
            i <= records@.len(),
            is_tally(out@, records@.take(i as int)),
        decreases records.len() - i,
    {
        let ghost head = records@.take(i as int);
        let ghost more = records@.take(i + 1);
        let ghost before = out@;
        let id: u64 = records[i].template_id;
        proof {
            assert(more.drop_last() =~= head);
            assert(more.last() == records@[i as int]);
            lemma_count_bound(head, id);
        }
        let at: usize = tally_place(&out, id);
        if at < out.len() && out[at].template_id == id {
            let old_tally: Tally = out.remove(at);
            let grown: Tally = Tally {
                template_id: id,
                count: old_tally.count + 1,
                message: old_tally.message,
            };
            let ghost g = grown;
            out.insert(at, grown);
            proof {
                assert(out@ =~= before.update(at as int, g));
                lemma_tallied(before, out@, head, more, at as int, true);
            }
        } else {
            let fresh: Tally = Tally {
                template_id: id,
                count: 1,
                message: records[i].message.as_str().to_string(),
            };
            let ghost g = fresh;
            out.insert(at, fresh);
            proof {
                assert(out@ =~= before.insert(at as int, g));
                assert(count_of(head, id) == 0) by {
                    if count_of(head, id) > 0 {
                        assert(tallied(before, id));
                        let j = choose|j: int|
                            0 <= j < before.len() && (#[trigger] before[j]).template_id == id;
                        if j > at {
                            assert(before[at as int].template_id < before[j].template_id);
                        }
                    }
                }
                lemma_tallied(before, out@, head, more, at as int, false);
            }
        }
        i = i + 1;
    }
    assert(records@.take(i as int) =~= records@);
    out
}

proof fn lemma_tallied(
    before: Seq<Tally>,
    after: Seq<Tally>,
    head: Seq<Record>,
    more: Seq<Record>,
    at: int,
    found: bool,
)
    requires
        is_tally(before, head),
        more.len() == head.len() + 1,
        more.drop_last() == head,
        0 <= at < after.len(),
        after[at].template_id == more.last().template_id,
        after[at].count == count_of(head, after[at].template_id) + 1,
        after[at].message@ == first_message(more, after[at].template_id),
        found ==> at < before.len() && after == before.update(at, after[at])
            && before[at].template_id == after[at].template_id,
        !found ==> at <= before.len() && after == before.insert(at, after[at]),
        !found ==> forall|i: int|
            0 <= i < before.len() ==> (#[trigger] before[i]).template_id != after[at].template_id,
        forall|i: int| 0 <= i < at ==> (#[trigger] before[i]).template_id < after[at].template_id,
        forall|i: int|
            at <= i < before.len() ==> (#[trigger] before[i]).template_id
                >= after[at].template_id,
    ensures
        is_tally(after, more),
{
    let id = after[at].template_id;
    assert forall|i: int, j: int| 0 <= i < j < after.len() implies (
    #[trigger] after[i]).template_id < (#[trigger] after[j]).template_id by {
        let p = if found || i < at { i } else { i - 1 };
        let q = if found || j < at { j } else { j - 1 };
        if i != at {
            assert(after[i] == before[p]);
        }
        if j != at {
            assert(after[j] == before[q]);
        }
        if found {
            assert(before[i].template_id < before[j].template_id);
        }
    }
    assert forall|i: int| 0 <= i < after.len() implies (#[trigger] after[i]).count == count_of(
        more,
        after[i].template_id,
    ) && after[i].count > 0 && after[i].message@ == first_message(
        more,
        after[i].template_id,
    ) by {
        if i != at {
            let p = if found || i < at { i } else { i - 1 };
            assert(after[i] == before[p]);
            assert(after[i].template_id != id) by {
                if i < at {
                    assert(after[i].template_id < after[at].template_id);
                } else {
                    assert(after[at].template_id < after[i].template_id);
                }
            }
        }
    }
    assert forall|x: u64| #[trigger] count_of(more, x) > 0 implies tallied(after, x) by {
        if x == id {
            assert(after[at].template_id == x);
        } else {
            assert(count_of(head, x) > 0);
            assert(tallied(before, x));
            let i = choose|i: int| 0 <= i < before.len() && (#[trigger] before[i]).template_id == x;
            let p = if found || i < at { i } else { i + 1 };
            assert(after[p].template_id == x);
        }
    }
}

fn tally_count(tallies: &Vec<Tally>, id: u64, Ghost(records): Ghost<Seq<Record>>) -> (r: usize)
    requires
        is_tally(tallies@, records),
    ensures
        r == count_of(records, id),
{
    let at: usize = tally_place(tallies, id);
    if at < tallies.len() && tallies[at].template_id == id {
        tallies[at].count
    } else {
        proof {
            if count_of(records, id) > 0 {
                assert(tallied(tallies@, id));
                let j = choose|j: int|
                    0 <= j < tallies@.len() && (#[trigger] tallies@[j]).template_id == id;
                if j > at {
                    assert(tallies@[at as int].template_id < tallies@[j].template_id);
                }
            }
        }
        0
    }
}

/// Why a template stands out.
#[derive(Debug, Clone, Copy, PartialEq, Eq, Structural)]
pub enum AnomalyKind {
    /// It did not come before.
    New,
    /// It comes at least three times as often as before.
    VolumeSpike,
}

/// A template that stands out.
#[derive(Debug)]
pub struct AnomalyTemplate {
    pub template_id: u64,
    pub example_message: String,
    pub current_count: usize,
    pub baseline_count: usize,
    pub kind: AnomalyKind,
}

/// The contents of an `AnomalyTemplate`.
#[verifier::ext_equal]
pub struct Anomaly {
    pub template_id: u64,
    pub example_message: Seq<char>,
    pub current_count: nat,
    pub baseline_count: nat,
    pub kind: AnomalyKind,
}

impl View for AnomalyTemplate {
    type V = Anomaly;

    open spec fn view(&self) -> Anomaly {
        Anomaly {
            template_id: self.template_id,
            example_message: self.example_message@,
            current_count: self.current_count as nat,
            baseline_count: self.baseline_count as nat,
            kind: self.kind,
        }
    }
}

/// Whether a template stands out, by how often it comes and came.
pub open spec fn verdict(current: nat, baseline: nat) -> Option<AnomalyKind> {
    if baseline == 0 {
        Some(AnomalyKind::New)
    } else if current >= VOLUME_SPIKE_RATIO * baseline {
        Some(AnomalyKind::VolumeSpike)
    } else {
        None
    }
}

/// The templates among `ids` that stand out.
pub open spec fn anomalies_among(
    ids: Seq<u64>,
    current: Seq<Record>,
    baseline: Seq<Record>,
) -> Seq<Anomaly>
    decreases ids.len(),
{
    if ids.len() == 0 {
        seq![]
    } else {
        let before = anomalies_among(ids.drop_last(), current, baseline);
        let id = ids.last();
        match verdict(count_of(current, id), count_of(baseline, id)) {
            Some(kind) => before.push(
                Anomaly {
                    template_id: id,
                    example_message: first_message(current, id),
                    current_count: count_of(current, id),
                    baseline_count: count_of(baseline, id),
                    kind,
                },
            ),
            None => before,
        }
    }
}

/// `ids` are the templates of the records, ascending.
pub open spec fn is_id_list(ids: Seq<u64>, records: Seq<Record>) -> bool {
    &&& forall|i: int, j: int| 0 <= i < j < ids.len() ==> (#[trigger] ids[i]) < (#[trigger] ids[j])
    &&& forall|id: u64| #[trigger] count_of(records, id) > 0 <==> ids.contains(id)
}

pub open spec fn anomaly_rank() -> spec_fn(Anomaly) -> int {
    |a: Anomaly| -(a.current_count as int)
}

pub open spec fn anomaly_views(v: Seq<AnomalyTemplate>) -> Seq<Anomaly> {
    v.map_values(|a: AnomalyTemplate| a@)
}

/// The templates that stand out, the most frequent first, those of one count by id.
pub open spec fn is_anomaly_report(
    out: Seq<Anomaly>,
    current: Seq<Record>,
    baseline: Seq<Record>,
) -> bool {
    exists|ids: Seq<u64>| #[trigger]
        is_id_list(ids, current) && sorting::is_stable_sort(
            out,
            anomalies_among(ids, current, baseline),
            anomaly_rank(),
        )
}

fn judge(current: usize, baseline: usize) -> (r: Option<AnomalyKind>)
    ensures
        r == verdict(current as nat, baseline as nat),
{
    if baseline == 0 {
        Some(AnomalyKind::New)
    } else if current as u128 >= (VOLUME_SPIKE_RATIO as u128) * (baseline as u128) {
        Some(AnomalyKind::VolumeSpike)
    } else {
        None
    }
}

/// Finds the templates of `current` that did not come in `baseline`, or that come at least
/// three times as often.
pub fn find_anomalies(current: &Vec<Record>, baseline: &Vec<Record>) -> (r: Vec<AnomalyTemplate>)
    ensures
        is_anomaly_report(anomaly_views(r@), current@, baseline@),
{
    let now: Vec<Tally> = tally(current);
    let past: Vec<Tally> = tally(baseline);
    let ghost ids = now@.map_values(|t: Tally| t.template_id);
    proof {
        assert forall|id: u64| #[trigger] count_of(current@, id) > 0 <==> ids.contains(id) by {
            if count_of(current@, id) > 0 {
                assert(tallied(now@, id));
                let i = choose|i: int| 0 <= i < now@.len() && (#[trigger] now@[i]).template_id
                    == id;
                assert(ids[i] == id);
            }
            if ids.contains(id) {
                let i = choose|i: int| 0 <= i < ids.len() && ids[i] == id;
                assert(now@[i].template_id == id);
            }
        }
        assert(is_id_list(ids, current@));
    }
    let mut ranked: Vec<(i128, AnomalyTemplate)> = Vec::new();
    let ghost wanted = anomalies_among(ids, current@, baseline@);
    let mut i: usize = 0;
    assert(ranked_views(ranked@) =~= anomalies_among(ids.take(0), current@, baseline@));
    while i < now.len()
        invariant
            i <= now@.len(),
            ids == now@.map_values(|t: Tally| t.template_id),
            is_tally(now@, current@),
            is_tally(past@, baseline@),
            ranked_views(ranked@) == anomalies_among(ids.take(i as int), current@, baseline@),
            forall|j: int|
                0 <= j < ranked@.len() ==> (#[trigger] ranked@[j]).0 == -(
                ranked@[j].1.current_count as int),
        decreases now.len() - i,
    {
        assert(ids.take(i + 1).drop_last() =~= ids.take(i as int));
        let t: &Tally = &now[i];
        assert(ids.take(i + 1).last() == t.template_id);
        let came: usize = tally_count(&past, t.template_id, Ghost(baseline@));
        match judge(t.count, came) {
            Some(kind) => {
                let ghost before = ranked@;
                let a: AnomalyTemplate = AnomalyTemplate {
                    template_id: t.template_id,
                    example_message: t.message.as_str().to_string(),
                    current_count: t.count,
                    baseline_count: came,
                    kind,
                };
                let ghost view = a@;
                ranked.push((-(t.count as i128), a));
                assert(ranked_views(ranked@) =~= ranked_views(before).push(view));
            },
            None => {},
        }
        i = i + 1;
    }
    assert(ids.take(i as int) =~= ids);
    let ghost from = ranked@;
    let sorted: Vec<(i128, AnomalyTemplate)> = sort_by_rank(ranked);
    let ghost done = sorted@;
    proof {
        let rank = |a: AnomalyTemplate| -(a.current_count as int);
        sorting::lemma_sorted_values(done, from, rank);
        let vals = done.map_values(|p: (i128, AnomalyTemplate)| p.1);
        let orig = from.map_values(|p: (i128, AnomalyTemplate)| p.1);
        let view = |a: AnomalyTemplate| a@;
        sorting::lemma_sort_mapped(vals, orig, rank, view, anomaly_rank());
        assert(orig.map_values(view) =~= ranked_views(from));
        assert(vals.map_values(view) =~= ranked_views(done));
    }
    let mut out: Vec<AnomalyTemplate> = Vec::new();
    for p in it: sorted.into_iter()
        invariant
            it.seq() == done,
            out@.len() == it.index(),
            forall|i: int| 0 <= i < out@.len() ==> #[trigger] out@[i] == done[i].1,
    {
        out.push(p.1);
    }
    assert(anomaly_views(out@) =~= ranked_views(done));
    out
}

pub open spec fn ranked_views(v: Seq<(i128, AnomalyTemplate)>) -> Seq<Anomaly> {
    v.map_values(|p: (i128, AnomalyTemplate)| p.1@)
}

pub open spec fn kind_text(kind: AnomalyKind) -> Seq<char> {
    match kind {
        AnomalyKind::New => "new"@,
        AnomalyKind::VolumeSpike => "volume_spike"@,
    }
}

impl AnomalyKind {
    /// The kind in words.
    pub fn name(&self) -> (r: &'static str)
        ensures
            r@ == kind_text(*self),
    {
        match self {
            AnomalyKind::New => "new",
            AnomalyKind::VolumeSpike => "volume_spike",
        }
    }
}

/// A template that never came before always stands out; one that comes no more often than
/// before never does.
pub proof fn law_verdicts(current: nat, baseline: nat)
    ensures
        baseline == 0 ==> verdict(current, baseline) == Some(AnomalyKind::New),
        0 < baseline && current <= baseline ==> verdict(current, baseline) is None,
{
}

// ---- laws ----

/// A message of up to 240 characters is shown as it is; of a longer one its first 240
/// characters are shown, and an ellipsis.
pub proof fn law_long_messages_are_cut(message: Seq<char>)
    ensures
        message.len() <= 240 ==> bounded(message) == (message, false),
        message.len() > 240 ==> bounded(message) == (message.take(240) + seq!['…'], true),
{
    if message.len() > 240 {
        assert(message.take(240).push('…') =~= message.take(240) + seq!['…']);
    }
}

/// A cursor is the place of a page's first hit in decimal: the one that a page hands out is
/// read back as it was meant, and what is none begins at the front.
pub proof fn law_cursors_are_read_back(n: nat, cursor: Seq<char>)
    ensures
        n <= usize::MAX ==> offset_of(Some(decimal::decimal(n))) == n,
        decimal::natural_of(cursor) is None ==> offset_of(Some(cursor)) == 0,
        offset_of(None) == 0,
{
    decimal::law_decimal_round_trip(n);
}

/// A page holds as many hits as were asked for, or all that are left; there is a next page
/// exactly where hits are left behind it, and it begins at the first of them.
pub proof fn law_pages_follow_each_other(total: nat, offset: nat, k: nat)
    ensures
        page_len(total, offset, k) <= k,
        offset < total ==> offset + page_len(total, offset, k) <= total,
        offset < total && page_len(total, offset, k) < k ==> offset + page_len(total, offset, k)
            == total,
        offset >= total ==> page_len(total, offset, k) == 0,
        next_offset(total, offset, k) is Some <==> offset + page_len(total, offset, k) < total,
        next_offset(total, offset, k) is Some ==> next_offset(total, offset, k)->0 == offset
            + page_len(total, offset, k),
{
}

/// A hit shows the record that was found: its time, its fields, its score, its message up to
/// the bound, and an id that is read back as its key.
pub proof fn law_hits_show_their_records(
    hit: LogHit,
    c: SearchCandidate,
    labels: Map<Seq<char>, Seq<char>>,
)
    requires
        shows(hit, c),
    ensures
        hit.timestamp_ns == c.record.timestamp_ns,
        hit.fields.texts() == c.record.fields.texts(),
        hit.score_bits == c.score_bits,
        c.record.message@.len() <= 240 ==> hit.message@ == c.record.message@ && !hit.truncated,
        c.record.message@.len() > 240 ==> hit.message@ == c.record.message@.take(240) + seq!['…']
            && hit.truncated,
        hextext::unhexed(vstd::utf8::encode_utf8(hit.doc_id@)) == Ok::<
            Seq<u8>,
            hextext::HexError,
        >(c.key@),
        labeled(labels)(c) <==> labels.submap_of(c.record.fields.texts()),
{
    law_long_messages_are_cut(c.record.message@);
    hextext::law_hex_round_trip(c.key@);
    query::law_filters_are_part_of_the_fields(
        c.record.fields.texts(),
        labels,
        seq![c.record],
        c.record,
    );
}

/// The context of a line is the lines of its stream up to `n` before it and `n` behind it,
/// each with its time and its message, and only the line itself is the anchor.
pub proof fn law_context_surrounds_its_anchor(
    lines: Seq<ContextLine>,
    stream: Seq<(Vec<u8>, Record)>,
    key: Seq<u8>,
    n: nat,
    at: int,
    j: int,
)
    requires
        is_context(lines, stream, key, n),
        0 <= at < stream.len(),
        stream[at].0@ == key,
        forall|i: int| 0 <= i < at ==> (#[trigger] stream[i]).0@ != key,
    ensures
        ({
            let from = if at < n {
                0
            } else {
                at - n
            };
            let to = if at + n < stream.len() {
                at + n + 1
            } else {
                stream.len() as int
            };
            &&& lines.len() == to - from
            &&& from <= j < to ==> {
                &&& lines[j - from].timestamp_ns == stream[j].1.timestamp_ns
                &&& lines[j - from].message@ == stream[j].1.message@
                &&& lines[j - from].doc_id@ == hextext::hex_text(stream[j].0@)
                &&& lines[j - from].is_anchor <==> stream[j].0@ == key
            }
        }),
{
    let l = least_place(stream, key);
    lemma_least_place(stream, key, at);
    assert(0 <= l < stream.len() && stream[l].0@ == key && forall|i: int|
        0 <= i < l ==> (#[trigger] stream[i]).0@ != key);
    assert(l == at) by {
        if l < at {
            assert(stream[l].0@ != key);
        }
        if at < l {
            assert(stream[at].0@ != key);
        }
    }
    let from = if at < n {
        0
    } else {
        at - n
    };
    if from <= j < from + lines.len() {
        assert(shows_line(lines[j - from], stream[from + (j - from)], key));
    }
}

/// The stream of a line is made of the entries of its window that have the very same fields,
/// by time.
pub proof fn law_stream_has_the_same_fields(
    stream: Seq<(Vec<u8>, Record)>,
    window: Seq<(Vec<u8>, Record)>,
    fields: Map<Seq<char>, Seq<char>>,
    i: int,
)
    requires
        sorting::is_stable_sort(stream, window.filter(in_stream(fields)), storage::time_rank()),
        0 <= i < stream.len(),
    ensures
        stream[i].1.fields.texts() == fields,
        window.contains(stream[i]),
        i + 1 < stream.len() ==> stream[i].1.timestamp_ns <= stream[i + 1].1.timestamp_ns,
        stream.to_multiset() == window.filter(
            |e: (Vec<u8>, Record)| e.1.fields.texts() == fields,
        ).to_multiset(),
{
    broadcast use vstd::seq_lib::group_to_multiset_ensures;

    let kept = window.filter(in_stream(fields));
    storage::law_chronological(stream, kept, 0);
    assert(in_stream(fields) =~= (|e: (Vec<u8>, Record)| e.1.fields.texts() == fields));
    let e = stream[i];
    assert(stream.contains(e));
    assert(stream.to_multiset().count(e) > 0);
    assert(kept.to_multiset().count(e) > 0);
    assert(kept.contains(e));
    lemma_kept(window, in_stream(fields), e);
}

proof fn lemma_kept(
    window: Seq<(Vec<u8>, Record)>,
    keep: spec_fn((Vec<u8>, Record)) -> bool,
    e: (Vec<u8>, Record),
)
    requires
        window.filter(keep).contains(e),
    ensures
        keep(e),
        window.contains(e),
    decreases window.len(),
{
    reveal(Seq::filter);
    if window.len() > 0 {
        let rest = window.drop_last();
        let kept = rest.filter(keep);
        let all = window.filter(keep);
        let j = choose|j: int| 0 <= j < all.len() && all[j] == e;
        if j < kept.len() {
            assert(kept[j] == e);
            lemma_kept(rest, keep, e);
            let k = choose|k: int| 0 <= k < rest.len() && rest[k] == e;
            assert(window[k] == e);
        } else {
            assert(window[window.len() - 1] == e);
        }
    }
}

/// The values of a field are those that some record has under its name, each counted once;
/// the samples are the first ten of them in order.
pub proof fn law_field_values(records: Seq<Record>, field: Seq<char>, v: Seq<char>)
    requires
        field_values(records, field).dom().finite(),
    ensures
        ({
            let values = strmap::listing(field_values(records, field));
            let samples = samples_of(records, field);
            let occurs = exists|i: int|
                0 <= i < records.len() && (#[trigger] records[i]).fields.texts().dom().contains(
                    field,
                ) && records[i].fields.texts()[field] == v;
            &&& field_values(records, field).dom().contains(v) <==> occurs
            &&& values.len() == field_values(records, field).dom().len()
            &&& samples.len() == if values.len() < 10 {
                values.len() as int
            } else {
                10
            }
            &&& samples.contains(v) ==> occurs
            &&& forall|i: int, j: int|
                0 <= i < j < samples.len() ==> order::text_lt(
                    #[trigger] samples[i],
                    #[trigger] samples[j],
                )
            &&& occurs && !samples.contains(v) ==> samples.len() == 10 && order::text_lt(
                samples[9],
                v,
            )
        }),
{
    let m = field_values(records, field);
    let values = strmap::listing(m);
    let samples = samples_of(records, field);
    strmap::law_listing(m, v);
    space_saving::law_first_items(values, 10);
    assert forall|i: int| 0 <= i < samples.len() implies #[trigger] samples[i] == values[i].0 by {}
    if samples.contains(v) {
        let i = choose|i: int| 0 <= i < samples.len() && samples[i] == v;
        assert(values[i].0 == v);
    }
    if m.dom().contains(v) && !samples.contains(v) {
        let i = choose|i: int| 0 <= i < values.len() && (#[trigger] values[i]).0 == v;
        if i < samples.len() {
            assert(samples[i] == v);
        }
        assert(order::text_lt(values[9].0, values[i].0));
    }
}

/// Where a tool's aggregate has an answer it is from the sketch of its kind; it is refused
/// where the operation is not known or a quantile is not named.
pub proof fn law_tool_operations(
    s: FieldSketch,
    op: Seq<char>,
    q: Option<&str>,
    k: nat,
    a: ToolAnswer,
)
    ensures
        tool_refusal(op, q is Some) is None <==> op == "count"@ || op == "cardinality"@ || op
            == "topk"@ || (op == "quantile"@ && q is Some),
        tool_answers(s, op, q, k, a) ==> (a is Count <==> op == "count"@) && (a is Cardinality
            <==> op == "cardinality"@) && (a is TopK <==> op == "topk"@) && (a is Quantile <==> op
            == "quantile"@),
        tool_answers(s, op, q, k, a) && a is Count ==> (a->Count_0 is Some <==> s is Exact) && (
        s is Exact ==> a->Count_0->0@ == s->Exact_0@),
        tool_answers(s, op, q, k, a) && a is Cardinality ==> (a->Cardinality_0 is Some <==> s is Hll)
            && (s is Hll ==> sketch::is_estimate(*s->Hll_0, a->Cardinality_0->0)),
        tool_answers(s, op, q, k, a) && a is TopK ==> (a->TopK_0 is Some <==> s is TopK) && (
        s is TopK ==> space_saving::count_views(a->TopK_0->0@).is_prefix_of(
            space_saving::ranking(s->TopK_0@),
        ) && a->TopK_0->0@.len() == if space_saving::ranking(s->TopK_0@).len() < k {
            space_saving::ranking(s->TopK_0@).len()
        } else {
            k
        }),
        tool_answers(s, op, q, k, a) && a is Quantile && a->Quantile_0 is Some ==> s is DDSketch
            && sketch::is_quantile(*s->DDSketch_0, q->0@, a->Quantile_0->0),
{
    reveal_strlit("count");
    reveal_strlit("cardinality");
    reveal_strlit("topk");
    reveal_strlit("quantile");
    assert("count"@.len() == 5);
    assert("cardinality"@.len() == 11);
    assert("topk"@.len() == 4);
    assert("quantile"@.len() == 8);
    if s is TopK {
        space_saving::law_first_items(space_saving::ranking(s->TopK_0@), k);
    }
}

/// A time that fits 64 bits stays as it is; one that does not is the nearest that does.
pub proof fn law_times_are_kept_in_range(x: int)
    ensures
        i64::MIN <= x <= i64::MAX ==> clamped(x) == x,
        x > i64::MAX ==> clamped(x) == i64::MAX,
        x < i64::MIN ==> clamped(x) == i64::MIN,
{
}

/// How often a template comes is how many records have it, and its example is the message of
/// the first of them.
pub proof fn law_templates_are_counted(records: Seq<Record>, id: u64, i: int)
    ensures
        count_of(records, id) == records.filter(|r: Record| r.template_id == id).len(),
        0 <= i < records.len() && records[i].template_id == id && (forall|j: int|
            0 <= j < i ==> (#[trigger] records[j]).template_id != id) ==> first_message(records, id)
            == records[i].message@ && count_of(records, id) > 0,
        (forall|j: int| 0 <= j < records.len() ==> (#[trigger] records[j]).template_id != id)
            <==> count_of(records, id) == 0,
    decreases records.len(),
{
    reveal(Seq::filter);
    if records.len() > 0 {
        let rest = records.drop_last();
        law_templates_are_counted(rest, id, i);
        assert(forall|j: int| 0 <= j < rest.len() ==> rest[j] == records[j]);
        assert(records.last() == records[records.len() - 1]);
        if count_of(rest, id) > 0 {
            let j = choose|j: int| 0 <= j < rest.len() && (#[trigger] rest[j]).template_id == id;
            assert(records[j].template_id == id);
        }
    }
}

/// A template stands out exactly where it comes now and either did not come before or comes
/// at least three times as often as before.
pub proof fn law_what_stands_out(current: nat, baseline: nat)
    ensures
        verdict(current, baseline) == Some(AnomalyKind::New) <==> baseline == 0,
        verdict(current, baseline) == Some(AnomalyKind::VolumeSpike) <==> baseline > 0 && current
            >= 3 * baseline,
        verdict(current, baseline) is None <==> baseline > 0 && current < 3 * baseline,
{
}

/// A report names exactly the templates that stand out, each with how often it comes and
/// came, and none before one that comes more often.
pub proof fn law_report_names_what_stands_out(
    out: Seq<Anomaly>,
    current: Seq<Record>,
    baseline: Seq<Record>,
    id: u64,
)
    requires
        is_anomaly_report(out, current, baseline),
    ensures
        ({
            let now = current.filter(|r: Record| r.template_id == id).len();
            let past = baseline.filter(|r: Record| r.template_id == id).len();
            (exists|i: int| 0 <= i < out.len() && (#[trigger] out[i]).template_id == id) <==> now > 0
                && (past == 0 || now >= 3 * past)
        }),
        forall|i: int|
            0 <= i < out.len() && (#[trigger] out[i]).template_id == id ==> out[i].current_count
                == current.filter(|r: Record| r.template_id == id).len() && out[i].baseline_count
                == baseline.filter(|r: Record| r.template_id == id).len() && (
            out[i].kind is New <==> baseline.filter(|r: Record| r.template_id == id).len() == 0),
        forall|i: int, j: int|
            0 <= i < j < out.len() ==> (#[trigger] out[i]).current_count >= (
            #[trigger] out[j]).current_count,
{
    broadcast use vstd::seq_lib::group_to_multiset_ensures;

    let ids = choose|ids: Seq<u64>| #[trigger]
        is_id_list(ids, current) && sorting::is_stable_sort(
            out,
            anomalies_among(ids, current, baseline),
            anomaly_rank(),
        );
    let all = anomalies_among(ids, current, baseline);
    let rank = anomaly_rank();
    sorting::law_sorting_only_reorders(out, all, rank, 0);
    law_templates_are_counted(current, id, 0);
    law_templates_are_counted(baseline, id, 0);
    lemma_anomalies_among(ids, current, baseline, id);
    assert forall|a: Anomaly| out.contains(a) <==> #[trigger] all.contains(a) by {
        assert(out.to_multiset().count(a) == all.to_multiset().count(a));
    }
    if exists|i: int| 0 <= i < out.len() && (#[trigger] out[i]).template_id == id {
        let i = choose|i: int| 0 <= i < out.len() && (#[trigger] out[i]).template_id == id;
        assert(out.contains(out[i]));
        assert(all.contains(out[i]));
    }
    assert(count_of(current, id) > 0 <==> ids.contains(id));
    if ids.contains(id) && verdict(count_of(current, id), count_of(baseline, id)) is Some {
        let a = choose|a: Anomaly| #[trigger] all.contains(a) && a.template_id == id;
        assert(out.contains(a));
        let i = choose|i: int| 0 <= i < out.len() && out[i] == a;
        assert(out[i].template_id == id);
    }
    assert forall|i: int| 0 <= i < out.len() && (#[trigger] out[i]).template_id == id implies
        out[i].current_count == count_of(current, id) && out[i].baseline_count == count_of(
        baseline,
        id,
    ) && (out[i].kind is New <==> count_of(baseline, id) == 0) by {
        assert(out.contains(out[i]));
        assert(all.contains(out[i]));
    }
    assert forall|i: int, j: int| 0 <= i < j < out.len() implies (
    #[trigger] out[i]).current_count >= (#[trigger] out[j]).current_count by {
        assert(!(rank(out[j]) < rank(out[i])));
    }
}

proof fn lemma_anomalies_among(
    ids: Seq<u64>,
    current: Seq<Record>,
    baseline: Seq<Record>,
    id: u64,
)
    ensures
        ids.contains(id) && verdict(count_of(current, id), count_of(baseline, id)) is Some
            ==> exists|a: Anomaly| #[trigger]
            anomalies_among(ids, current, baseline).contains(a) && a.template_id == id,
        forall|a: Anomaly| #[trigger]
            anomalies_among(ids, current, baseline).contains(a) && a.template_id == id
                ==> ids.contains(id) && a.current_count == count_of(current, id)
                && a.baseline_count == count_of(baseline, id) && Some(a.kind) == verdict(
                count_of(current, id),
                count_of(baseline, id),
            ),
    decreases ids.len(),
{
    if ids.len() > 0 {
        let rest = ids.drop_last();
        let before = anomalies_among(rest, current, baseline);
        let all = anomalies_among(ids, current, baseline);
        let last = ids.last();
        lemma_anomalies_among(rest, current, baseline, id);
        assert(ids =~= rest.push(last));
        assert(ids[rest.len() as int] == last);
        assert(rest.contains(id) ==> ids.contains(id)) by {
            if rest.contains(id) {
                let i = choose|i: int| 0 <= i < rest.len() && rest[i] == id;
                assert(ids[i] == id);
            }
        }
        assert(ids.contains(id) && id != last ==> rest.contains(id)) by {
            if ids.contains(id) && id != last {
                let i = choose|i: int| 0 <= i < ids.len() && ids[i] == id;
                assert(rest[i] == id);
            }
        }
        assert forall|a: Anomaly| #[trigger] before.contains(a) implies all.contains(a) by {
            let i = choose|i: int| 0 <= i < before.len() && before[i] == a;
            assert(all[i] == a);
        }
        match verdict(count_of(current, last), count_of(baseline, last)) {
            Some(kind) => {
                let made = all.last();
                assert(all[all.len() - 1] == made);
                assert(all.contains(made));
                assert(made.template_id == last);
                assert forall|a: Anomaly| #[trigger] all.contains(a) implies before.contains(a) || a
                    == made by {
                    let i = choose|i: int| 0 <= i < all.len() && all[i] == a;
                    if i < before.len() {
                        assert(before[i] == a);
                    }
                }
            },
            None => {},
        }
        if rest.contains(id) && verdict(count_of(current, id), count_of(baseline, id)) is Some {
            let a = choose|a: Anomaly| #[trigger] before.contains(a) && a.template_id == id;
            assert(all.contains(a));
        }
    }
}

/// A report gives the message of the first record of a template as its example, and names
/// templates that come equally often by ascending id.
pub proof fn law_report_order_and_examples(
    out: Seq<Anomaly>,
    current: Seq<Record>,
    baseline: Seq<Record>,
    i: int,
    j: int,
    first: int,
)
    requires
        is_anomaly_report(out, current, baseline),
        0 <= i < out.len(),
    ensures
        0 <= first < current.len() && current[first].template_id == out[i].template_id && (forall|
            p: int,
        | 0 <= p < first ==> (#[trigger] current[p]).template_id != out[i].template_id)
            ==> out[i].example_message == current[first].message@,
        i < j < out.len() && out[i].current_count == out[j].current_count ==> out[i].template_id
            < out[j].template_id,
{
    broadcast use vstd::seq_lib::group_to_multiset_ensures;

    let ids = choose|ids: Seq<u64>| #[trigger]
        is_id_list(ids, current) && sorting::is_stable_sort(
            out,
            anomalies_among(ids, current, baseline),
            anomaly_rank(),
        );
    let all = anomalies_among(ids, current, baseline);
    let rank = anomaly_rank();
    sorting::law_sorting_only_reorders(out, all, rank, 0);
    assert(out.contains(out[i]));
    assert(out.to_multiset().count(out[i]) == all.to_multiset().count(out[i]));
    assert(all.contains(out[i]));
    lemma_examples(ids, current, baseline);
    let p = choose|p: int| 0 <= p < all.len() && all[p] == out[i];
    assert(all[p].example_message == first_message(current, all[p].template_id));
    law_templates_are_counted(current, out[i].template_id, first);
    if i < j < out.len() && out[i].current_count == out[j].current_count {
        sorting::lemma_stable_order(out, all, rank, i, j);
    }
}

proof fn lemma_examples(ids: Seq<u64>, current: Seq<Record>, baseline: Seq<Record>)
    requires
        forall|i: int, j: int|
            0 <= i < j < ids.len() ==> (#[trigger] ids[i]) < (#[trigger] ids[j]),
    ensures
        forall|p: int|
            0 <= p < anomalies_among(ids, current, baseline).len() ==> (
            #[trigger] anomalies_among(ids, current, baseline)[p]).example_message
                == first_message(
                current,
                anomalies_among(ids, current, baseline)[p].template_id,
            ) && ids.len() > 0 && anomalies_among(ids, current, baseline)[p].template_id
                <= ids.last(),
        forall|p: int, q: int|
            0 <= p < q < anomalies_among(ids, current, baseline).len() ==> (
            #[trigger] anomalies_among(ids, current, baseline)[p]).template_id < (
            #[trigger] anomalies_among(ids, current, baseline)[q]).template_id,
    decreases ids.len(),
{
    if ids.len() > 0 {
        let rest = ids.drop_last();
        assert forall|i: int, j: int| 0 <= i < j < rest.len() implies (#[trigger] rest[i]) < (
        #[trigger] rest[j]) by {
            assert(ids[i] < ids[j]);
        }
        lemma_examples(rest, current, baseline);
        if rest.len() > 0 {
            assert(ids[rest.len() - 1] < ids[ids.len() - 1]);
            assert(rest.last() < ids.last());
        }
    }
}

/// The contents of a report's entry are its own, and its kinds have names of their own.
pub proof fn law_report_entries_are_taken_as_they_are(a: AnomalyTemplate)
    ensures
        a@.template_id == a.template_id,
        a@.example_message == a.example_message@,
        a@.current_count == a.current_count,
        a@.baseline_count == a.baseline_count,
        a@.kind == a.kind,
        kind_text(AnomalyKind::New) == seq!['n', 'e', 'w'],
        kind_text(AnomalyKind::VolumeSpike) == "volume"@ + seq!['_'] + "spike"@,
{
    reveal_strlit("new");
    reveal_strlit("volume");
    reveal_strlit("spike");
    reveal_strlit("volume_spike");
    assert("new"@ =~= seq!['n', 'e', 'w']);
    assert("volume_spike"@ =~= "volume"@ + seq!['_'] + "spike"@);
}

/// A tool's aggregate that is refused says why.
pub proof fn law_tool_refusals_in_words(op: Seq<char>)
    ensures
        tool_refusal("quantile"@, false) == Some("missing q for quantile"@),
        op != "count"@ && op != "cardinality"@ && op != "topk"@ && op != "quantile"@
            ==> tool_refusal(op, true) == Some("unknown op "@ + text::debug_text(op))
            && tool_refusal(op, false) == Some("unknown op "@ + text::debug_text(op)),
        source_text(true) == "hll_rollup_estimate"@,
        source_text(false) == "exact_in_window"@,
{
    reveal_strlit("count");
    reveal_strlit("cardinality");
    reveal_strlit("topk");
    reveal_strlit("quantile");
    assert("count"@.len() == 5);
    assert("cardinality"@.len() == 11);
    assert("topk"@.len() == 4);
    assert("quantile"@.len() == 8);
}

/// The context of a line goes back ten minutes, but not before the epoch, and ahead ten
/// minutes, as far as times go.
pub proof fn law_context_window(timestamp_ns: i64)
    ensures
        timestamp_ns >= 600_000_000_000 ==> context_window(timestamp_ns as int).0 == timestamp_ns
            - 600_000_000_000,
        timestamp_ns < 600_000_000_000 ==> context_window(timestamp_ns as int).0 == 0,
        timestamp_ns <= i64::MAX - 600_000_000_000 ==> context_window(timestamp_ns as int).1
            == timestamp_ns + 600_000_000_000,
        timestamp_ns > i64::MAX - 600_000_000_000 ==> context_window(timestamp_ns as int).1
            == i64::MAX,
{
}

/// Where no other window is given to compare with, it is the one that ends where the window
/// starts and is as long; what is given counts as it is.
pub proof fn law_baseline_is_just_before(
    start_ns: i64,
    end_ns: i64,
    given_start: i64,
    given_end: i64,
)
    ensures
        baseline_of(start_ns as int, end_ns as int, None, None).1 == start_ns,
        i64::MIN <= end_ns - start_ns <= i64::MAX && i64::MIN <= start_ns - (end_ns - start_ns)
            <= i64::MAX ==> baseline_of(start_ns as int, end_ns as int, None, None).1
            - baseline_of(start_ns as int, end_ns as int, None, None).0 == end_ns - start_ns,
        baseline_of(start_ns as int, end_ns as int, Some(given_start), None).0 == given_start,
        baseline_of(start_ns as int, end_ns as int, None, Some(given_end)).1 == given_end,
        baseline_of(start_ns as int, end_ns as int, Some(given_start), Some(given_end)) == (
            given_start as int,
            given_end as int,
        ),
{
}

/// For a page all hits up to its end are fetched and one more, so that it shows whether
/// there is a next page.
pub proof fn law_one_hit_more_is_fetched(offset: nat, k: nat)
    requires
        offset + k < usize::MAX,
    ensures
        fetched(offset, k) == offset + k + 1,
{
    vstd::arithmetic::div_mod::lemma_small_mod(offset + k + 1, (usize::MAX + 1) as nat);
}

/// Where no line of the stream is the anchor, its first lines are shown, and none of them as
/// the anchor.
pub proof fn law_context_without_its_anchor(
    lines: Seq<ContextLine>,
    stream: Seq<(Vec<u8>, Record)>,
    key: Seq<u8>,
    n: nat,
    j: int,
)
    requires
        is_context(lines, stream, key, n),
        forall|i: int| 0 <= i < stream.len() ==> (#[trigger] stream[i]).0@ != key,
    ensures
        lines.len() == if n + 1 < stream.len() {
            n + 1
        } else {
            stream.len()
        },
        0 <= j < lines.len() ==> lines[j].message@ == stream[j].1.message@ && lines[j].timestamp_ns
            == stream[j].1.timestamp_ns && !lines[j].is_anchor,
{
    if 0 <= j < lines.len() {
        assert(shows_line(lines[j], stream[0 + j], key));
    }
}

} // verus!
