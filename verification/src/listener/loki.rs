//! Loki's push and query endpoints.

use vstd::prelude::*;

use crate::decimal;
use crate::decimal::{parse_i64, signed_text};
use crate::listener;
use crate::listener::{parse_range, Refused};
use crate::logql;
use crate::logql::{parse, ParsedQuery};
use crate::lokiproto;
use crate::lokiproto::DecodedStream;
use crate::order;
use crate::order::{order_of_texts, Order};
use crate::record;
use crate::record::{Record, WireRecord};
use crate::strmap;
use crate::strmap::FieldMap;
use crate::text;
use crate::text::contains;

verus! {

/// A stream of a JSON push: its labels, and its lines behind their times as texts.
#[derive(Debug)]
pub struct JsonStream {
    pub stream: FieldMap,
    pub values: Vec<(String, String)>,
}

pub open spec fn pair_views(values: Seq<(String, String)>) -> Seq<(Seq<char>, Seq<char>)> {
    values.map_values(|v: (String, String)| (v.0@, v.1@))
}

/// The lines of a stream with their times; `None` where a time is no 64-bit number.
pub open spec fn timed(values: Seq<(Seq<char>, Seq<char>)>) -> Option<Seq<(i64, Seq<char>)>>
    decreases values.len(),
{
    if values.len() == 0 {
        Some(seq![])
    } else {
        match (
            timed(values.drop_last()),
            decimal::integer_within(values.last().0, i64::MIN as int, i64::MAX as int),
        ) {
            (Some(before), Some(t)) => Some(before.push((t as i64, values.last().1))),
            _ => None,
        }
    }
}

/// The streams of a JSON push; `None` where a time is no 64-bit number.
pub open spec fn timed_streams(streams: Seq<JsonStream>) -> Option<Seq<lokiproto::Stream>>
    decreases streams.len(),
{
    if streams.len() == 0 {
        Some(seq![])
    } else {
        match (timed_streams(streams.drop_last()), timed(pair_views(streams.last().values@))) {
            (Some(before), Some(entries)) => Some(
                before.push(
                    lokiproto::Stream { labels: streams.last().stream.texts(), entries },
                ),
            ),
            _ => None,
        }
    }
}

proof fn lemma_untimed(values: Seq<(Seq<char>, Seq<char>)>, i: int)
    requires
        0 <= i <= values.len(),
        timed(values.take(i)) is None,
    ensures
        timed(values) is None,
    decreases values.len() - i,
{
    if i == values.len() {
        assert(values.take(i) =~= values);
    } else {
        assert(values.take(i + 1).drop_last() =~= values.take(i));
        lemma_untimed(values, i + 1);
    }
}

proof fn lemma_untimed_streams(streams: Seq<JsonStream>, i: int)
    requires
        0 <= i <= streams.len(),
        timed_streams(streams.take(i)) is None,
    ensures
        timed_streams(streams) is None,
    decreases streams.len() - i,
{
    if i == streams.len() {
        assert(streams.take(i) =~= streams);
    } else {
        assert(streams.take(i + 1).drop_last() =~= streams.take(i));
        lemma_untimed_streams(streams, i + 1);
    }
}

fn read_times(values: &Vec<(String, String)>) -> (r: Option<Vec<(i64, String)>>)
    ensures
        match r {
            Some(entries) => timed(pair_views(values@)) == Some(
                lokiproto::entry_views(entries@),
            ),
            None => timed(pair_views(values@)) is None,
        },
{
    let ghost all = pair_views(values@);
    let mut out: Vec<(i64, String)> = Vec::new();
    let mut i: usize = 0;
    assert(lokiproto::entry_views(out@) =~= seq![]);
    while i < values.len()
        invariant
            i <= values@.len(),
            all == pair_views(values@),
            timed(all.take(i as int)) == Some(lokiproto::entry_views(out@)),
        decreases values.len() - i,
    {
        assert(all.take(i + 1).drop_last() =~= all.take(i as int));
        assert(all.take(i + 1).last() == (values@[i as int].0@, values@[i as int].1@));
        match parse_i64(values[i].0.as_str()) {
            Some(t) => {
                let ghost before = out@;
                let line: String = values[i].1.as_str().to_string();
                out.push((t, line));
                assert(lokiproto::entry_views(out@) =~= lokiproto::entry_views(before).push(
                    (t, values@[i as int].1@),
                ));
            },
            None => {
                proof {
                    lemma_untimed(all, i + 1);
                }
                return None;
            },
        }
        i = i + 1;
    }
    assert(all.take(i as int) =~= all);
    Some(out)
}

/// Reads the times of a JSON push; `None` where one is no 64-bit number.
pub fn streams_from_json(streams: &Vec<JsonStream>) -> (r: Option<Vec<DecodedStream>>)
    ensures
        match r {
            Some(s) => timed_streams(streams@) == Some(lokiproto::stream_views(s@)),
            None => timed_streams(streams@) is None,
        },
{
    let mut out: Vec<DecodedStream> = Vec::new();
    let mut i: usize = 0;
    assert(lokiproto::stream_views(out@) =~= seq![]);
    while i < streams.len()
        invariant
            i <= streams@.len(),
            timed_streams(streams@.take(i as int)) == Some(lokiproto::stream_views(out@)),
        decreases streams.len() - i,
    {
        assert(streams@.take(i + 1).drop_last() =~= streams@.take(i as int));
        assert(streams@.take(i + 1).last() == streams@[i as int]);
        match read_times(&streams[i].values) {
            Some(entries) => {
                let ghost before = out@;
                let stream: DecodedStream = DecodedStream {
                    labels: streams[i].stream.copy(),
                    entries,
                };
                let ghost view = stream@;
                out.push(stream);
                assert(lokiproto::stream_views(out@) =~= lokiproto::stream_views(before).push(
                    view,
                ));
            },
            None => {
                proof {
                    lemma_untimed_streams(streams@, i + 1);
                }
                return None;
            },
        }
        i = i + 1;
    }
    assert(streams@.take(i as int) =~= streams@);
    Some(out)
}

/// The records of one stream: its lines, each with the stream's labels as fields.
pub open spec fn stream_records(s: lokiproto::Stream) -> Seq<record::Wire> {
    s.entries.map_values(
        |e: (i64, Seq<char>)|
            record::Wire { timestamp_ns: e.0, message: e.1, fields: s.labels },
    )
}

/// The records of some streams, in their order.
pub open spec fn push_records(streams: Seq<lokiproto::Stream>) -> Seq<record::Wire>
    decreases streams.len(),
{
    if streams.len() == 0 {
        seq![]
    } else {
        push_records(streams.drop_last()) + stream_records(streams.last())
    }
}

pub open spec fn wire_views(records: Seq<WireRecord>) -> Seq<record::Wire> {
    records.map_values(|w: WireRecord| w@)
}

/// The records of a push.
pub fn records_of_push(streams: &Vec<DecodedStream>) -> (r: Vec<WireRecord>)
    ensures
        wire_views(r@) == push_records(lokiproto::stream_views(streams@)),
{
    let ghost all = lokiproto::stream_views(streams@);
    let mut out: Vec<WireRecord> = Vec::new();
    let mut i: usize = 0;
    assert(wire_views(out@) =~= seq![]);
    while i < streams.len()
        invariant
            i <= streams@.len(),
            all == lokiproto::stream_views(streams@),
            wire_views(out@) == push_records(all.take(i as int)),
        decreases streams.len() - i,
    {
        assert(all.take(i + 1).drop_last() =~= all.take(i as int));
        assert(all.take(i + 1).last() == streams@[i as int]@);
        let s: &DecodedStream = &streams[i];
        let ghost base = wire_views(out@);
        let ghost wanted = stream_records(s@);
        let mut j: usize = 0;
        assert(base + wanted.take(0) =~= base);
        while j < s.entries.len()
            invariant
                j <= s.entries@.len(),
                wanted == stream_records(s@),
                wire_views(out@) == base + wanted.take(j as int),
            decreases s.entries.len() - j,
        {
            let ghost before = out@;
            let e: &(i64, String) = &s.entries[j];
            let w: WireRecord = WireRecord {
                timestamp_ns: e.0,
                message: e.1.as_str().to_string(),
                fields: s.labels.copy(),
            };
            let ghost view = w@;
            out.push(w);
            assert(wire_views(out@) =~= wire_views(before).push(view));
            assert(wanted[j as int] == view);
            assert(base + wanted.take(j + 1) =~= (base + wanted.take(j as int)).push(view));
            j = j + 1;
        }
        assert(wanted.take(j as int) =~= wanted);
        i = i + 1;
    }
    assert(all.take(i as int) =~= all);
    out
}

/// A range query: what to select, and when.
#[derive(Debug)]
pub struct RangeQuery {
    pub query: ParsedQuery,
    pub start_ns: i64,
    pub end_ns: i64,
}

/// What the parameters of a range query ask for, or why they are refused.
pub open spec fn range_query_of(params: Map<Seq<char>, Seq<char>>) -> Result<
    ((Map<Seq<char>, Seq<char>>, Option<Seq<char>>), (i64, i64)),
    Seq<char>,
> {
    if !params.dom().contains("query"@) {
        Err("missing `query` param"@)
    } else {
        match logql::query_of(params["query"@]) {
            Err(e) => Err(e),
            Ok(q) => match listener::range_of(params) {
                Err(e) => Err(e),
                Ok(range) => Ok((q, range)),
            },
        }
    }
}

/// Reads the parameters of a range query. Bad ones are a bad request.
pub fn parse_range_query(params: &FieldMap) -> (r: Result<RangeQuery, Refused>)
    ensures
        match r {
            Ok(q) => range_query_of(params.texts()) == Ok::<
                ((Map<Seq<char>, Seq<char>>, Option<Seq<char>>), (i64, i64)),
                Seq<char>,
            >((q.query.parts(), (q.start_ns, q.end_ns))),
            Err(e) => e.status == 400 && range_query_of(params.texts()) == Err::<
                ((Map<Seq<char>, Seq<char>>, Option<Seq<char>>), (i64, i64)),
                Seq<char>,
            >(e.message@),
        },
{
    match params.get_text("query") {
        None => Err(Refused { status: 400, message: "missing `query` param".to_string() }),
        Some(s) => match parse(s) {
            Err(e) => Err(Refused { status: 400, message: e }),
            Ok(query) => match parse_range(params) {
                Err(e) => Err(e),
                Ok((start_ns, end_ns)) => Ok(RangeQuery { query, start_ns, end_ns }),
            },
        },
    }
}

/// One stream of an answer: a label set, and the lines that have it, behind their times.
#[derive(Debug)]
pub struct ResultStream {
    pub stream: FieldMap,
    pub values: Vec<(String, String)>,
}

/// A list of labels.
pub type Labels = Seq<(Seq<char>, Seq<char>)>;

/// The lines that pass the filter.
pub open spec fn passes(filter: Option<Seq<char>>, r: Record) -> bool {
    match filter {
        None => true,
        Some(f) => text::has_substring(r.message@, f),
    }
}

pub open spec fn labels_of(r: Record) -> Labels {
    strmap::listing(r.fields.texts())
}

/// The lines with those labels that pass the filter, behind their times, in their order.
pub open spec fn lines_of(
    records: Seq<Record>,
    filter: Option<Seq<char>>,
    labels: Labels,
) -> Seq<(Seq<char>, Seq<char>)>
    decreases records.len(),
{
    if records.len() == 0 {
        seq![]
    } else {
        let before = lines_of(records.drop_last(), filter, labels);
        let r = records.last();
        if passes(filter, r) && labels_of(r) == labels {
            before.push((decimal::int_text(r.timestamp_ns as int), r.message@))
        } else {
            before
        }
    }
}

/// The streams of an answer: one for each label set of a line that passes the filter, by
/// ascending label set, each with its lines in their order.
pub open spec fn is_grouping(
    out: Seq<ResultStream>,
    records: Seq<Record>,
    filter: Option<Seq<char>>,
) -> bool {
    &&& forall|i: int, j: int|
        0 <= i < j < out.len() ==> order::labels_lt(
            strmap::listing((#[trigger] out[i]).stream.texts()),
            strmap::listing((#[trigger] out[j]).stream.texts()),
        )
    &&& forall|i: int|
        0 <= i < out.len() ==> pair_views((#[trigger] out[i]).values@) == lines_of(
            records,
            filter,
            strmap::listing(out[i].stream.texts()),
        ) && out[i].values@.len() > 0
    &&& forall|k: int|
        0 <= k < records.len() && passes(filter, #[trigger] records[k]) ==> has_stream(
            out,
            labels_of(records[k]),
        )
}

pub open spec fn has_stream(out: Seq<ResultStream>, labels: Labels) -> bool {
    exists|i: int|
        0 <= i < out.len() && strmap::listing((#[trigger] out[i]).stream.texts()) == labels
}

/// Compares label sets: by their first labels, each by name and then by value.
pub fn order_of_labels(a: &FieldMap, b: &FieldMap) -> (r: Order)
    ensures
        match r {
            Order::Less => order::labels_lt(
                strmap::listing(a.texts()),
                strmap::listing(b.texts()),
            ),
            Order::Equal => strmap::listing(a.texts()) == strmap::listing(b.texts()),
            Order::Greater => order::labels_lt(
                strmap::listing(b.texts()),
                strmap::listing(a.texts()),
            ),
        },
{
    let n: usize = a.count();
    let m: usize = b.count();
    let ghost x = strmap::listing(a.texts());
    let ghost y = strmap::listing(b.texts());
    let mut i: usize = 0;
    proof {
        order::lemma_labels_order_total();
        assert(x.skip(0) =~= x);
        assert(y.skip(0) =~= y);
    }
    while i < n && i < m
        invariant
            i <= n,
            i <= m,
            n == x.len(),
            m == y.len(),
            x == strmap::listing(a.texts()),
            y == strmap::listing(b.texts()),
            x.take(i as int) == y.take(i as int),
            order::labels_lt(x, y) == order::labels_lt(x.skip(i as int), y.skip(i as int)),
            order::labels_lt(y, x) == order::labels_lt(y.skip(i as int), x.skip(i as int)),
        decreases n - i,
    {
        proof {
            order::lemma_labels_order_total();
            order::lemma_text_order_total();
        }
        let (k, v) = a.text_at(i);
        let (l, w) = b.text_at(i);
        let ghost p = x.skip(i as int);
        let ghost q = y.skip(i as int);
        assert(p[0] == x[i as int] && q[0] == y[i as int]);
        assert(p.drop_first() =~= x.skip(i + 1));
        assert(q.drop_first() =~= y.skip(i + 1));
        match order_of_texts(k, l) {
            Order::Less => {
                return Order::Less;
            },
            Order::Greater => {
                return Order::Greater;
            },
            Order::Equal => match order_of_texts(v, w) {
                Order::Less => {
                    return Order::Less;
                },
                Order::Greater => {
                    return Order::Greater;
                },
                Order::Equal => {
                    assert(x.take(i + 1) =~= x.take(i as int).push(x[i as int]));
                    assert(y.take(i + 1) =~= y.take(i as int).push(y[i as int]));
                },
            },
        }
        i = i + 1;
    }
    if n < m {
        assert(x.skip(i as int).len() == 0);
        Order::Less
    } else if m < n {
        assert(y.skip(i as int).len() == 0);
        Order::Greater
    } else {
        assert(x.take(i as int) =~= x);
        assert(y.take(i as int) =~= y);
        Order::Equal
    }
}

/// Where a label set stands among streams, or belongs.
fn place_of(out: &Vec<ResultStream>, labels: &FieldMap) -> (r: (usize, bool))
    requires
        forall|i: int, j: int|
            0 <= i < j < out@.len() ==> order::labels_lt(
                strmap::listing((#[trigger] out@[i]).stream.texts()),
                strmap::listing((#[trigger] out@[j]).stream.texts()),
            ),
    ensures
        r.0 <= out@.len(),
        r.1 ==> r.0 < out@.len() && strmap::listing(out@[r.0 as int].stream.texts())
            == strmap::listing(labels.texts()),
        forall|i: int|
            0 <= i < r.0 ==> order::labels_lt(
                strmap::listing((#[trigger] out@[i]).stream.texts()),
                strmap::listing(labels.texts()),
            ),
        !r.1 ==> forall|i: int|
            r.0 <= i < out@.len() ==> order::labels_lt(
                strmap::listing(labels.texts()),
                strmap::listing((#[trigger] out@[i]).stream.texts()),
            ),
{
    let mut i: usize = 0;
    while i < out.len()
        invariant
            i <= out@.len(),
            forall|a: int, b: int|
                0 <= a < b < out@.len() ==> order::labels_lt(
                    strmap::listing((#[trigger] out@[a]).stream.texts()),
                    strmap::listing((#[trigger] out@[b]).stream.texts()),
                ),
            forall|a: int|
                0 <= a < i ==> order::labels_lt(
                    strmap::listing((#[trigger] out@[a]).stream.texts()),
                    strmap::listing(labels.texts()),
                ),
        decreases out.len() - i,
    {
        match order_of_labels(&out[i].stream, labels) {
            Order::Less => {},
            Order::Equal => {
                return (i, true);
            },
            Order::Greater => {
                proof {
                    order::lemma_labels_order_total();
                }
                return (i, false);
            },
        }
        i = i + 1;
    }
    (i, false)
}

/// Groups lines by their full label set, keeping those that pass the filter.
pub fn group_streams(records: Vec<Record>, line_filter: Option<&str>) -> (out: Vec<ResultStream>)
    ensures
        is_grouping(
            out@,
            records@,
            match line_filter {
                Some(f) => Some(f@),
                None => None,
            },
        ),
{
    let ghost all = records@;
    let ghost filter = match line_filter {
        Some(f) => Some(f@),
        None => None,
    };
    let mut out: Vec<ResultStream> = Vec::new();
    for r in it: records.into_iter()
        invariant
            it.seq() == all,
            filter == (match line_filter {
                Some(f) => Some(f@),
                None => None,
            }),
            is_grouping(out@, all.take(it.index()), filter),
    {
        let ghost done = all.take(it.index());
        let ghost more = all.take(it.index() + 1);
        let ghost before = out@;
        proof {
            assert(more.drop_last() =~= done);
            assert(more.last() == r);
            order::lemma_labels_order_total();
        }
        let keep: bool = match line_filter {
            None => true,
            Some(f) => contains(r.message.as_str(), f),
        };
        if keep {
            let ghost labels = labels_of(r);
            let ghost line = (decimal::int_text(r.timestamp_ns as int), r.message@);
            let (at, found): (usize, bool) = place_of(&out, &r.fields);
            let value: (String, String) = (signed_text(r.timestamp_ns), r.message);
            if found {
                let mut group: ResultStream = out.remove(at);
                let ghost old_values = group.values@;
                group.values.push(value);
                assert(pair_views(group.values@) =~= pair_views(old_values).push(line));
                let ghost grown = group;
                out.insert(at, group);
                proof {
                    assert(out@ =~= before.update(at as int, grown));
                    lemma_grouped(before, out@, done, more, filter, at as int, true);
                }
            } else {
                let mut values: Vec<(String, String)> = Vec::new();
                values.push(value);
                assert(pair_views(values@) =~= seq![line]);
                let group: ResultStream = ResultStream { stream: r.fields, values };
                let ghost grown = group;
                out.insert(at, group);
                proof {
                    assert(out@ =~= before.insert(at as int, grown));
                    lemma_no_lines(before, done, filter, labels, at as int);
                    assert(lines_of(more, filter, labels) =~= seq![line]);
                    lemma_grouped(before, out@, done, more, filter, at as int, false);
                }
            }
        } else {
            proof {
                assert forall|i: int| 0 <= i < out@.len() implies pair_views(
                    (#[trigger] out@[i]).values@,
                ) == lines_of(more, filter, strmap::listing(out@[i].stream.texts()))
                    && out@[i].values@.len() > 0 by {}
                assert forall|k: int| 0 <= k < more.len() && passes(filter, #[trigger] more[k])
                    implies has_stream(out@, labels_of(more[k])) by {
                    if k < done.len() {
                        assert(more[k] == done[k]);
                    }
                }
            }
        }
    }
    assert(all.take(all.len() as int) =~= all);
    out
}

/// No line has labels that no stream has.
proof fn lemma_no_lines(
    out: Seq<ResultStream>,
    records: Seq<Record>,
    filter: Option<Seq<char>>,
    labels: Labels,
    at: int,
)
    requires
        is_grouping(out, records, filter),
        0 <= at <= out.len(),
        forall|i: int|
            0 <= i < at ==> order::labels_lt(
                strmap::listing((#[trigger] out[i]).stream.texts()),
                labels,
            ),
        forall|i: int|
            at <= i < out.len() ==> order::labels_lt(
                labels,
                strmap::listing((#[trigger] out[i]).stream.texts()),
            ),
    ensures
        lines_of(records, filter, labels) == Seq::<(Seq<char>, Seq<char>)>::empty(),
{
    order::lemma_labels_order_total();
    assert forall|k: int| 0 <= k < records.len() && passes(filter, #[trigger] records[k])
        implies labels_of(records[k]) != labels by {
        assert(has_stream(out, labels_of(records[k])));
        let i = choose|i: int|
            0 <= i < out.len() && strmap::listing((#[trigger] out[i]).stream.texts()) == labels_of(
                records[k],
            );
        if i < at {
            assert(order::labels_lt(strmap::listing(out[i].stream.texts()), labels));
        } else {
            assert(order::labels_lt(labels, strmap::listing(out[i].stream.texts())));
        }
    }
    lemma_none_match(records, filter, labels);
}

proof fn lemma_none_match(records: Seq<Record>, filter: Option<Seq<char>>, labels: Labels)
    requires
        forall|k: int|
            0 <= k < records.len() && passes(filter, #[trigger] records[k]) ==> labels_of(
                records[k],
            ) != labels,
    ensures
        lines_of(records, filter, labels) == Seq::<(Seq<char>, Seq<char>)>::empty(),
    decreases records.len(),
{
    if records.len() > 0 {
        let rest = records.drop_last();
        assert forall|k: int| 0 <= k < rest.len() && passes(filter, #[trigger] rest[k])
            implies labels_of(rest[k]) != labels by {
            assert(rest[k] == records[k]);
        }
        lemma_none_match(rest, filter, labels);
        assert(records.last() == records[records.len() - 1]);
    }
}

/// Adding a line to its stream, or a new stream for it, keeps the grouping.
proof fn lemma_grouped(
    before: Seq<ResultStream>,
    after: Seq<ResultStream>,
    done: Seq<Record>,
    more: Seq<Record>,
    filter: Option<Seq<char>>,
    at: int,
    found: bool,
)
    requires
        is_grouping(before, done, filter),
        more.len() == done.len() + 1,
        more.drop_last() == done,
        passes(filter, more.last()),
        0 <= at < after.len(),
        strmap::listing(after[at].stream.texts()) == labels_of(more.last()),
        pair_views(after[at].values@) == lines_of(more, filter, labels_of(more.last())),
        after[at].values@.len() > 0,
        found ==> at < before.len() && after == before.update(at, after[at]) && strmap::listing(
            before[at].stream.texts(),
        ) == labels_of(more.last()),
        !found ==> at <= before.len() && after == before.insert(at, after[at]),
        forall|i: int|
            0 <= i < at ==> order::labels_lt(
                strmap::listing((#[trigger] before[i]).stream.texts()),
                labels_of(more.last()),
            ),
        !found ==> forall|i: int|
            at <= i < before.len() ==> order::labels_lt(
                labels_of(more.last()),
                strmap::listing((#[trigger] before[i]).stream.texts()),
            ),
    ensures
        is_grouping(after, more, filter),
{
    order::lemma_labels_order_total();
    let labels = labels_of(more.last());
    assert forall|i: int, j: int| 0 <= i < j < after.len() implies order::labels_lt(
        strmap::listing((#[trigger] after[i]).stream.texts()),
        strmap::listing((#[trigger] after[j]).stream.texts()),
    ) by {
        let p = if found || i < at { i } else { i - 1 };
        let q = if found || j < at { j } else { j - 1 };
        if i != at {
            assert(after[i] == before[p]);
        }
        if j != at {
            assert(after[j] == before[q]);
        }
        if found {
            assert(order::labels_lt(
                strmap::listing(before[i].stream.texts()),
                strmap::listing(before[j].stream.texts()),
            ));
        }
    }
    assert forall|i: int| 0 <= i < after.len() implies pair_views((#[trigger] after[i]).values@)
        == lines_of(more, filter, strmap::listing(after[i].stream.texts()))
        && after[i].values@.len() > 0 by {
        if i != at {
            let p = if found || i < at { i } else { i - 1 };
            assert(after[i] == before[p]);
            let other = strmap::listing(before[p].stream.texts());
            assert(other != labels) by {
                if p < at {
                    assert(order::labels_lt(other, labels));
                } else if found {
                    assert(order::labels_lt(
                        strmap::listing(before[at].stream.texts()),
                        strmap::listing(before[p].stream.texts()),
                    ));
                } else {
                    assert(order::labels_lt(labels, other));
                }
            }
        }
    }
    assert forall|k: int| 0 <= k < more.len() && passes(filter, #[trigger] more[k])
        implies has_stream(after, labels_of(more[k])) by {
        if k < done.len() {
            assert(more[k] == done[k]);
            assert(has_stream(before, labels_of(done[k])));
            let i = choose|i: int|
                0 <= i < before.len() && strmap::listing((#[trigger] before[i]).stream.texts())
                    == labels_of(done[k]);
            let p = if found || i < at { i } else { i + 1 };
            assert(strmap::listing(after[p].stream.texts()) == labels_of(done[k]));
        } else {
            assert(strmap::listing(after[at].stream.texts()) == labels);
        }
    }
}

/// Every line that passes the filter is answered, under its own labels.
pub proof fn law_every_matching_line_is_answered(
    out: Seq<ResultStream>,
    records: Seq<Record>,
    filter: Option<Seq<char>>,
    k: int,
)
    requires
        is_grouping(out, records, filter),
        0 <= k < records.len(),
        passes(filter, records[k]),
    ensures
        exists|i: int|
            0 <= i < out.len() && strmap::listing((#[trigger] out[i]).stream.texts()) == labels_of(
                records[k],
            ) && pair_views(out[i].values@).contains(
                (decimal::int_text(records[k].timestamp_ns as int), records[k].message@),
            ),
{
    let labels = labels_of(records[k]);
    assert(has_stream(out, labels));
    let i = choose|i: int|
        0 <= i < out.len() && strmap::listing((#[trigger] out[i]).stream.texts()) == labels;
    lemma_line_is_listed(records, filter, k);
    assert(pair_views(out[i].values@) == lines_of(records, filter, labels));
}

proof fn lemma_line_is_listed(records: Seq<Record>, filter: Option<Seq<char>>, k: int)
    requires
        0 <= k < records.len(),
        passes(filter, records[k]),
    ensures
        lines_of(records, filter, labels_of(records[k])).contains(
            (decimal::int_text(records[k].timestamp_ns as int), records[k].message@),
        ),
    decreases records.len(),
{
    let labels = labels_of(records[k]);
    let line = (decimal::int_text(records[k].timestamp_ns as int), records[k].message@);
    let all = lines_of(records, filter, labels);
    let before = lines_of(records.drop_last(), filter, labels);
    if k == records.len() - 1 {
        assert(all[before.len() as int] == line);
    } else {
        assert(records.drop_last()[k] == records[k]);
        lemma_line_is_listed(records.drop_last(), filter, k);
        let j = choose|j: int| 0 <= j < before.len() && before[j] == line;
        assert(all[j] == line);
    }
}

/// A stream of an answer holds exactly the lines of the records with its labels that have
/// the filter's text in them, each behind its time, in the order of the records.
pub proof fn law_streams_hold_the_lines_with_the_text(
    out: Seq<ResultStream>,
    records: Seq<Record>,
    filter: Option<Seq<char>>,
    i: int,
)
    requires
        is_grouping(out, records, filter),
        0 <= i < out.len(),
        out[i].stream.texts().dom().finite(),
        forall|k: int|
            0 <= k < records.len() ==> (#[trigger] records[k]).fields.texts().dom().finite(),
    ensures
        pair_views(out[i].values@) == records.filter(
            |r: Record|
                r.fields.texts() == out[i].stream.texts() && (filter is Some ==> exists|
                    a: Seq<char>,
                    b: Seq<char>,
                | r.message@ == #[trigger] (a + filter->0 + b)),
        ).map_values(|r: Record| (decimal::int_text(r.timestamp_ns as int), r.message@)),
        out[i].values@.len() > 0,
{
    lemma_lines_are_filtered(records, filter, out[i].stream.texts());
}

proof fn lemma_lines_are_filtered(
    records: Seq<Record>,
    filter: Option<Seq<char>>,
    labels: Map<Seq<char>, Seq<char>>,
)
    requires
        labels.dom().finite(),
        forall|k: int|
            0 <= k < records.len() ==> (#[trigger] records[k]).fields.texts().dom().finite(),
    ensures
        lines_of(records, filter, strmap::listing(labels)) == records.filter(
            |r: Record|
                r.fields.texts() == labels && (filter is Some ==> exists|
                    a: Seq<char>,
                    b: Seq<char>,
                | r.message@ == #[trigger] (a + filter->0 + b)),
        ).map_values(|r: Record| (decimal::int_text(r.timestamp_ns as int), r.message@)),
    decreases records.len(),
{
    reveal(Seq::filter);
    let keep = |r: Record|
        r.fields.texts() == labels && (filter is Some ==> exists|a: Seq<char>, b: Seq<char>|
            r.message@ == #[trigger] (a + filter->0 + b));
    let shown = |r: Record| (decimal::int_text(r.timestamp_ns as int), r.message@);
    if records.len() == 0 {
        assert(records.filter(keep).map_values(shown) =~= seq![]);
    } else {
        let rest = records.drop_last();
        assert(forall|k: int| 0 <= k < rest.len() ==> rest[k] == records[k]);
        lemma_lines_are_filtered(rest, filter, labels);
        let r = records.last();
        assert(r == records[records.len() - 1]);
        assert(labels_of(r) == strmap::listing(labels) <==> r.fields.texts() == labels) by {
            strmap::lemma_listing_exists(labels);
            strmap::lemma_listing_exists(r.fields.texts());
            if labels_of(r) == strmap::listing(labels) {
                strmap::lemma_same_listing(labels_of(r), labels, r.fields.texts());
            }
        }
        if let Some(f) = filter {
            lemma_message_has(r.message@, f);
        }
        assert(passes(filter, r) && labels_of(r) == strmap::listing(labels) <==> keep(r));
        if keep(r) {
            assert(rest.filter(keep).push(r).map_values(shown) =~= rest.filter(keep).map_values(
                shown,
            ).push(shown(r)));
        }
    }
}

proof fn lemma_message_has(message: Seq<char>, f: Seq<char>)
    ensures
        text::has_substring(message, f) <==> exists|a: Seq<char>, b: Seq<char>|
            message == #[trigger] (a + f + b),
{
    text::law_substrings_stand_between(message, f, message, f);
    if exists|a: Seq<char>, b: Seq<char>| message == #[trigger] (a + f + b) {
        let (a, b) = choose|a: Seq<char>, b: Seq<char>| message == #[trigger] (a + f + b);
        text::law_substrings_stand_between(message, f, a, b);
    }
}

/// A record whose message has the filter's text in it, with any text before it and any
/// behind it, is answered under its labels; without a filter every record is.
pub proof fn law_lines_with_the_text_are_answered(
    out: Seq<ResultStream>,
    records: Seq<Record>,
    filter: Option<Seq<char>>,
    k: int,
    a: Seq<char>,
    b: Seq<char>,
)
    requires
        is_grouping(out, records, filter),
        0 <= k < records.len(),
        filter is Some ==> records[k].message@ == a + filter->0 + b,
        records[k].fields.texts().dom().finite(),
        forall|i: int| 0 <= i < out.len() ==> (#[trigger] out[i]).stream.texts().dom().finite(),
    ensures
        exists|i: int|
            0 <= i < out.len() && (#[trigger] out[i]).stream.texts() == records[k].fields.texts()
                && pair_views(out[i].values@).contains(
                (decimal::int_text(records[k].timestamp_ns as int), records[k].message@),
            ),
{
    if let Some(f) = filter {
        text::law_substrings_stand_between(records[k].message@, f, a, b);
    }
    law_every_matching_line_is_answered(out, records, filter, k);
    let i = choose|i: int|
        0 <= i < out.len() && strmap::listing((#[trigger] out[i]).stream.texts()) == labels_of(
            records[k],
        ) && pair_views(out[i].values@).contains(
            (decimal::int_text(records[k].timestamp_ns as int), records[k].message@),
        );
    strmap::lemma_listing_exists(out[i].stream.texts());
    strmap::lemma_listing_exists(records[k].fields.texts());
    strmap::lemma_same_listing(
        labels_of(records[k]),
        out[i].stream.texts(),
        records[k].fields.texts(),
    );
}

/// A line that is answered is the message of a record with those labels, behind the time of
/// that record, and has the filter's text in it.
pub proof fn law_only_lines_with_the_text_are_answered(
    out: Seq<ResultStream>,
    records: Seq<Record>,
    filter: Option<Seq<char>>,
    i: int,
    j: int,
)
    requires
        is_grouping(out, records, filter),
        0 <= i < out.len(),
        0 <= j < out[i].values@.len(),
        out[i].stream.texts().dom().finite(),
        forall|k: int|
            0 <= k < records.len() ==> (#[trigger] records[k]).fields.texts().dom().finite(),
    ensures
        exists|k: int|
            0 <= k < records.len() && (#[trigger] records[k]).fields.texts()
                == out[i].stream.texts() && records[k].message@ == out[i].values@[j].1@
                && out[i].values@[j].0@ == decimal::int_text(records[k].timestamp_ns as int),
        filter is Some ==> exists|a: Seq<char>, b: Seq<char>|
            out[i].values@[j].1@ == #[trigger] (a + filter->0 + b),
{
    let labels = out[i].stream.texts();
    lemma_lines_are_filtered(records, filter, labels);
    let keep = |r: Record|
        r.fields.texts() == labels && (filter is Some ==> exists|a: Seq<char>, b: Seq<char>|
            r.message@ == #[trigger] (a + filter->0 + b));
    let shown = |r: Record| (decimal::int_text(r.timestamp_ns as int), r.message@);
    let kept = records.filter(keep);
    assert(pair_views(out[i].values@) == kept.map_values(shown));
    assert(pair_views(out[i].values@)[j] == (out[i].values@[j].0@, out[i].values@[j].1@));
    let r = kept[j];
    assert(kept.contains(r));
    lemma_kept(records, keep, r);
}

proof fn lemma_kept(records: Seq<Record>, keep: spec_fn(Record) -> bool, r: Record)
    requires
        records.filter(keep).contains(r),
    ensures
        keep(r),
        exists|k: int| 0 <= k < records.len() && #[trigger] records[k] == r,
    decreases records.len(),
{
    reveal(Seq::filter);
    if records.len() > 0 {
        let rest = records.drop_last();
        let kept = rest.filter(keep);
        let all = records.filter(keep);
        let j = choose|j: int| 0 <= j < all.len() && all[j] == r;
        if j < kept.len() {
            assert(kept[j] == r);
            lemma_kept(rest, keep, r);
            let k = choose|k: int| 0 <= k < rest.len() && #[trigger] rest[k] == r;
            assert(records[k] == r);
        } else {
            assert(records[records.len() - 1] == r);
        }
    }
}

/// A stream that is pushed is read line by line: each time is a whole number of 64 bits in
/// decimal and stands before its line; a single one that is not refuses the stream.
pub proof fn law_pushed_lines_keep_their_times(values: Seq<(Seq<char>, Seq<char>)>, i: int)
    ensures
        timed(values) is Some ==> timed(values)->0.len() == values.len() && (0 <= i < values.len()
            ==> decimal::integer_of(values[i].0) == Some((timed(values)->0)[i].0 as int) && (
        timed(values)->0)[i].1 == values[i].1),
        timed(values) is None <==> exists|j: int|
            0 <= j < values.len() && !(decimal::integer_of((#[trigger] values[j]).0) is Some
                && i64::MIN <= decimal::integer_of(values[j].0)->0 <= i64::MAX),
    decreases values.len(),
{
    if values.len() > 0 {
        let rest = values.drop_last();
        assert(forall|j: int| 0 <= j < rest.len() ==> rest[j] == values[j]);
        law_pushed_lines_keep_their_times(rest, i);
        assert(values.last() == values[values.len() - 1]);
        if timed(rest) is None {
            let j = choose|j: int|
                0 <= j < rest.len() && !(decimal::integer_of((#[trigger] rest[j]).0) is Some
                    && i64::MIN <= decimal::integer_of(rest[j].0)->0 <= i64::MAX);
            assert(values[j] == rest[j]);
        }
    }
}

/// Every line that is pushed becomes one record, in order: the line is its message, the time
/// before the line its time, and the labels of the stream are its fields.
pub proof fn law_every_pushed_line_is_a_record(
    streams: Seq<lokiproto::Stream>,
    s: lokiproto::Stream,
    i: int,
)
    ensures
        push_records(Seq::<lokiproto::Stream>::empty()).len() == 0,
        push_records(streams.push(s)).len() == push_records(streams).len() + s.entries.len(),
        push_records(streams).is_prefix_of(push_records(streams.push(s))),
        0 <= i < s.entries.len() ==> {
            let r = push_records(streams.push(s))[push_records(streams).len() + i];
            r.timestamp_ns == s.entries[i].0 && r.message == s.entries[i].1 && r.fields == s.labels
        },
{
    assert(streams.push(s).drop_last() =~= streams);
}

/// A range query needs a query that reads and a range that reads; the query is looked at
/// first, and what is handed on is what was read.
pub proof fn law_range_query_needs_both(params: Map<Seq<char>, Seq<char>>)
    ensures
        range_query_of(params) is Ok <==> params.dom().contains("query"@) && logql::query_of(
            params["query"@],
        ) is Ok && listener::range_of(params) is Ok,
        range_query_of(params) is Ok ==> (range_query_of(params)->Ok_0).0 == logql::query_of(
            params["query"@],
        )->Ok_0 && (range_query_of(params)->Ok_0).1 == listener::range_of(params)->Ok_0,
        !params.dom().contains("query"@) ==> range_query_of(params)->Err_0
            == "missing `query` param"@,
        params.dom().contains("query"@) && logql::query_of(params["query"@]) is Err
            ==> range_query_of(params)->Err_0 == logql::query_of(params["query"@])->Err_0,
{
}

/// No two streams of an answer have the same labels: all lines of one label set stand in
/// one stream.
pub proof fn law_one_stream_for_each_label_set(
    out: Seq<ResultStream>,
    records: Seq<Record>,
    filter: Option<Seq<char>>,
    i: int,
    j: int,
)
    requires
        is_grouping(out, records, filter),
        0 <= i < j < out.len(),
    ensures
        out[i].stream.texts() != out[j].stream.texts(),
{
    order::lemma_labels_order_total();
}

/// Every stream of a push is read, in order, with its labels as they were given; one whose
/// times do not read refuses the push.
pub proof fn law_pushed_streams_keep_their_labels(streams: Seq<JsonStream>, s: JsonStream)
    ensures
        timed_streams(Seq::<JsonStream>::empty()) == Some(Seq::<lokiproto::Stream>::empty()),
        timed_streams(streams) is None ==> timed_streams(streams.push(s)) is None,
        timed(pair_views(s.values@)) is None ==> timed_streams(streams.push(s)) is None,
        timed_streams(streams) is Some && timed(pair_views(s.values@)) is Some ==> ({
            let all = timed_streams(streams.push(s));
            &&& all is Some
            &&& all->0.drop_last() == timed_streams(streams)->0
            &&& all->0.last().labels == s.stream.texts()
            &&& all->0.last().entries == timed(pair_views(s.values@))->0
        }),
{
    assert(streams.push(s).drop_last() =~= streams);
    if timed_streams(streams) is Some && timed(pair_views(s.values@)) is Some {
        assert(timed_streams(streams.push(s))->0.drop_last() =~= timed_streams(streams)->0);
    }
}

} // verus!
