//! OTLP logs: export requests, flattened into records.
//!
//! Values that are no plain scalars (doubles, arrays, lists of pairs) come as the text they
//! are shown by.

use vstd::prelude::*;

use crate::clock::now_ns;
use crate::decimal;
use crate::decimal::signed_text;
use crate::hextext;
use crate::record;
use crate::record::{PendingRecord, WireRecord};
use crate::strmap::FieldMap;

verus! {

/// An attribute or body value.
#[derive(Debug, PartialEq)]
pub enum AnyValue {
    /// There is no value, or one that needs a string table that is not sent with logs.
    Absent,
    Text(String),
    Bool(bool),
    Int(i64),
    Bytes(Vec<u8>),
    /// A value that is shown by this text.
    Shown(String),
}

/// The contents of an `AnyValue`.
pub enum Any {
    Absent,
    Text(Seq<char>),
    Bool(bool),
    Int(i64),
    Bytes(Seq<u8>),
    Shown(Seq<char>),
}

impl View for AnyValue {
    type V = Any;

    open spec fn view(&self) -> Any {
        match self {
            AnyValue::Absent => Any::Absent,
            AnyValue::Text(s) => Any::Text(s@),
            AnyValue::Bool(b) => Any::Bool(*b),
            AnyValue::Int(i) => Any::Int(*i),
            AnyValue::Bytes(b) => Any::Bytes(b@),
            AnyValue::Shown(s) => Any::Shown(s@),
        }
    }
}

/// An attribute.
#[derive(Debug, PartialEq)]
pub struct KeyValue {
    pub key: String,
    pub value: Option<AnyValue>,
}

/// The contents of a `KeyValue`.
pub type Attribute = (Seq<char>, Option<Any>);

pub open spec fn value_view(v: Option<AnyValue>) -> Option<Any> {
    match v {
        Some(a) => Some(a@),
        None => None,
    }
}

pub open spec fn attribute_views(attributes: Seq<KeyValue>) -> Seq<Attribute> {
    attributes.map_values(|kv: KeyValue| (kv.key@, value_view(kv.value)))
}

/// A log record as it is sent.
#[derive(Debug, PartialEq)]
pub struct LogRecord {
    pub time_unix_nano: u64,
    pub observed_time_unix_nano: u64,
    pub severity_number: i32,
    pub severity_text: String,
    pub body: Option<AnyValue>,
    pub attributes: Vec<KeyValue>,
    pub trace_id: Vec<u8>,
    pub span_id: Vec<u8>,
}

/// The contents of a `LogRecord`.
pub struct Log {
    pub time_unix_nano: u64,
    pub observed_time_unix_nano: u64,
    pub severity_number: i32,
    pub severity_text: Seq<char>,
    pub body: Option<Any>,
    pub attributes: Seq<Attribute>,
    pub trace_id: Seq<u8>,
    pub span_id: Seq<u8>,
}

impl View for LogRecord {
    type V = Log;

    open spec fn view(&self) -> Log {
        Log {
            time_unix_nano: self.time_unix_nano,
            observed_time_unix_nano: self.observed_time_unix_nano,
            severity_number: self.severity_number,
            severity_text: self.severity_text@,
            body: value_view(self.body),
            attributes: attribute_views(self.attributes@),
            trace_id: self.trace_id@,
            span_id: self.span_id@,
        }
    }
}

/// The log records of one scope.
#[derive(Debug, PartialEq)]
pub struct ScopeLogs {
    pub log_records: Vec<LogRecord>,
}

/// The scopes of one resource, with its attributes.
#[derive(Debug, PartialEq)]
pub struct ResourceLogs {
    pub resource: Option<Vec<KeyValue>>,
    pub scope_logs: Vec<ScopeLogs>,
}

/// An export request.
#[derive(Debug, PartialEq)]
pub struct ExportLogsServiceRequest {
    pub resource_logs: Vec<ResourceLogs>,
}

/// A text in lower case, by Unicode.
pub uninterp spec fn lowercase_text(s: Seq<char>) -> Seq<char>;

/// `str::to_lowercase`: every character by its lower-case mapping, which depends on the
/// text alone.
#[verifier::external_body]
fn lowercase(s: &str) -> (r: String)
    ensures
        r@ == lowercase_text(s@),
{
    s.to_lowercase()
}

/// `hex::encode`: two lower-case digits for each byte.
#[verifier::external_body]
fn hex_of(bytes: &Vec<u8>) -> (r: String)
    ensures
        r@ == hextext::hex_text(bytes@),
{
    hex::encode(bytes)
}

/// How a value is shown.
pub open spec fn shown(v: Any) -> Seq<char> {
    match v {
        Any::Absent => seq![],
        Any::Text(s) => s,
        Any::Bool(b) => if b {
            "true"@
        } else {
            "false"@
        },
        Any::Int(i) => decimal::int_text(i as int),
        Any::Bytes(b) => hextext::hex_text(b),
        Any::Shown(s) => s,
    }
}

/// `fields` with the attributes that have a value; later ones win.
pub open spec fn with_attributes(
    fields: Map<Seq<char>, Seq<char>>,
    attributes: Seq<Attribute>,
) -> Map<Seq<char>, Seq<char>>
    decreases attributes.len(),
{
    if attributes.len() == 0 {
        fields
    } else {
        let before = with_attributes(fields, attributes.drop_last());
        match attributes.last().1 {
            Some(v) => before.insert(attributes.last().0, shown(v)),
            None => before,
        }
    }
}

/// `fields` with one more, if `there` is so.
pub open spec fn with_if(
    fields: Map<Seq<char>, Seq<char>>,
    there: bool,
    name: Seq<char>,
    value: Seq<char>,
) -> Map<Seq<char>, Seq<char>> {
    if there {
        fields.insert(name, value)
    } else {
        fields
    }
}

/// The fields of a log record: its resource's, its own, and those made of its severity and
/// its ids. `level` is its severity text in lower case.
pub open spec fn log_fields(
    resource: Map<Seq<char>, Seq<char>>,
    log: Log,
    level: Seq<char>,
) -> Map<Seq<char>, Seq<char>> {
    let own = with_attributes(resource, log.attributes);
    let numbered = with_if(
        own,
        log.severity_number != 0,
        "severity_number"@,
        decimal::int_text(log.severity_number as int),
    );
    let leveled = with_if(numbered, log.severity_text.len() > 0, "level"@, level);
    let traced = with_if(
        leveled,
        log.trace_id.len() > 0,
        "trace_id"@,
        hextext::hex_text(log.trace_id),
    );
    with_if(traced, log.span_id.len() > 0, "span_id"@, hextext::hex_text(log.span_id))
}

/// A time as it is sent: zero is none, and so is one past 63 bits.
pub open spec fn sent_time(t: u64) -> Option<i64> {
    if t == 0 || t > i64::MAX {
        None
    } else {
        Some(t as i64)
    }
}

/// The time of a log record: that of the event, else that of its observation.
pub open spec fn log_time(log: Log) -> Option<i64> {
    match sent_time(log.time_unix_nano) {
        Some(t) => Some(t),
        None => sent_time(log.observed_time_unix_nano),
    }
}

/// The record of a log record whose severity text is `level` in lower case.
pub open spec fn record_with(
    resource: Map<Seq<char>, Seq<char>>,
    log: Log,
    level: Seq<char>,
) -> record::Pending {
    record::Pending {
        timestamp_ns: log_time(log),
        message: match log.body {
            Some(v) => shown(v),
            None => seq![],
        },
        fields: log_fields(resource, log, level),
    }
}

/// The record of a log record.
pub open spec fn record_of_log(resource: Map<Seq<char>, Seq<char>>, log: Log) -> record::Pending {
    record_with(resource, log, lowercase_text(log.severity_text))
}

/// The records of one scope.
pub open spec fn scope_records(
    resource: Map<Seq<char>, Seq<char>>,
    logs: Seq<LogRecord>,
) -> Seq<record::Pending> {
    logs.map_values(|l: LogRecord| record_of_log(resource, l@))
}

/// The records of some scopes, in their order.
pub open spec fn scopes_records(
    resource: Map<Seq<char>, Seq<char>>,
    scopes: Seq<ScopeLogs>,
) -> Seq<record::Pending>
    decreases scopes.len(),
{
    if scopes.len() == 0 {
        seq![]
    } else {
        scopes_records(resource, scopes.drop_last()) + scope_records(
            resource,
            scopes.last().log_records@,
        )
    }
}

/// The fields that a resource gives to its records.
pub open spec fn resource_fields(resource: Option<Vec<KeyValue>>) -> Map<Seq<char>, Seq<char>> {
    match resource {
        Some(attributes) => with_attributes(Map::empty(), attribute_views(attributes@)),
        None => Map::empty(),
    }
}

/// The records of some resources, in their order.
pub open spec fn request_records(resources: Seq<ResourceLogs>) -> Seq<record::Pending>
    decreases resources.len(),
{
    if resources.len() == 0 {
        seq![]
    } else {
        request_records(resources.drop_last()) + scopes_records(
            resource_fields(resources.last().resource),
            resources.last().scope_logs@,
        )
    }
}

/// Shows a value.
pub fn any_value_to_string(value: &AnyValue) -> (r: String)
    ensures
        r@ == shown(value@),
{
    match value {
        AnyValue::Absent => String::new(),
        AnyValue::Text(s) => s.as_str().to_string(),
        AnyValue::Bool(b) => if *b {
            "true".to_string()
        } else {
            "false".to_string()
        },
        AnyValue::Int(i) => signed_text(*i),
        AnyValue::Bytes(b) => hex_of(b),
        AnyValue::Shown(s) => s.as_str().to_string(),
    }
}

fn put_attributes(fields: &mut FieldMap, attributes: &Vec<KeyValue>)
    ensures
        final(fields).texts() == with_attributes(
            old(fields).texts(),
            attribute_views(attributes@),
        ),
{
    let ghost start = fields.texts();
    let ghost all = attribute_views(attributes@);
    let mut i: usize = 0;
    while i < attributes.len()
        invariant
            i <= attributes@.len(),
            all == attribute_views(attributes@),
            fields.texts() == with_attributes(start, all.take(i as int)),
        decreases attributes.len() - i,
    {
        let kv: &KeyValue = &attributes[i];
        assert(all.take(i + 1).drop_last() =~= all.take(i as int));
        assert(all.take(i + 1).last() == (kv.key@, value_view(kv.value)));
        match &kv.value {
            Some(v) => {
                let text: String = any_value_to_string(v);
                fields.put(kv.key.as_str(), text.as_str());
            },
            None => {},
        }
        i = i + 1;
    }
    assert(all.take(i as int) =~= all);
}

/// The fields of some attributes.
pub fn attributes_to_fields(attributes: &Vec<KeyValue>) -> (r: FieldMap)
    ensures
        r.texts() == with_attributes(Map::empty(), attribute_views(attributes@)),
{
    let mut fields: FieldMap = FieldMap::empty();
    put_attributes(&mut fields, attributes);
    fields
}

fn read_time(t: u64) -> (r: Option<i64>)
    ensures
        r == sent_time(t),
{
    if t == 0 || t > 0x7fff_ffff_ffff_ffff {
        None
    } else {
        Some(t as i64)
    }
}

/// Builds the record of a log record whose severity text is `level` in lower case.
pub fn record_from_log(resource: &FieldMap, log: &LogRecord, level: &str) -> (r: PendingRecord)
    ensures
        r@ == record_with(resource.texts(), log@, level@),
{
    let mut fields: FieldMap = resource.copy();
    put_attributes(&mut fields, &log.attributes);
    if log.severity_number != 0 {
        fields.put("severity_number", signed_text(log.severity_number as i64).as_str());
    }
    if log.severity_text.as_str().unicode_len() > 0 {
        fields.put("level", level);
    }
    if log.trace_id.len() > 0 {
        fields.put("trace_id", hex_of(&log.trace_id).as_str());
    }
    if log.span_id.len() > 0 {
        fields.put("span_id", hex_of(&log.span_id).as_str());
    }
    let message: String = match &log.body {
        Some(v) => any_value_to_string(v),
        None => String::new(),
    };
    let timestamp_ns: Option<i64> = match read_time(log.time_unix_nano) {
        Some(t) => Some(t),
        None => read_time(log.observed_time_unix_nano),
    };
    PendingRecord { timestamp_ns, message, fields }
}

pub open spec fn pending_views(records: Seq<PendingRecord>) -> Seq<record::Pending> {
    records.map_values(|p: PendingRecord| p@)
}

/// Flattens a request: every record of every scope of every resource, in their order.
/// Times that the request does not give stay open.
pub fn flatten_request(request: &ExportLogsServiceRequest) -> (r: Vec<PendingRecord>)
    ensures
        pending_views(r@) == request_records(request.resource_logs@),
{
    let mut out: Vec<PendingRecord> = Vec::new();
    let ghost resources = request.resource_logs@;
    let mut i: usize = 0;
    assert(pending_views(out@) =~= seq![]);
    while i < request.resource_logs.len()
        invariant
            i <= resources.len(),
            resources == request.resource_logs@,
            pending_views(out@) == request_records(resources.take(i as int)),
        decreases resources.len() - i,
    {
        let res: &ResourceLogs = &request.resource_logs[i];
        assert(resources.take(i + 1).drop_last() =~= resources.take(i as int));
        let fields: FieldMap = match &res.resource {
            Some(attributes) => attributes_to_fields(attributes),
            None => FieldMap::empty(),
        };
        let ghost base = pending_views(out@);
        let ghost scopes = res.scope_logs@;
        let mut j: usize = 0;
        assert(base + scopes_records(fields.texts(), scopes.take(0)) =~= base);
        while j < res.scope_logs.len()
            invariant
                j <= scopes.len(),
                scopes == res.scope_logs@,
                pending_views(out@) == base + scopes_records(
                    fields.texts(),
                    scopes.take(j as int),
                ),
            decreases scopes.len() - j,
        {
            let logs: &Vec<LogRecord> = &res.scope_logs[j].log_records;
            assert(scopes.take(j + 1).drop_last() =~= scopes.take(j as int));
            let ghost inner = pending_views(out@);
            let ghost wanted = scope_records(fields.texts(), logs@);
            let mut k: usize = 0;
            assert(inner + wanted.take(0) =~= inner);
            while k < logs.len()
                invariant
                    k <= logs@.len(),
                    wanted == scope_records(fields.texts(), logs@),
                    pending_views(out@) == inner + wanted.take(k as int),
                decreases logs@.len() - k,
            {
                let ghost before = out@;
                let level: String = lowercase(logs[k].severity_text.as_str());
                let p: PendingRecord = record_from_log(&fields, &logs[k], level.as_str());
                let ghost view = p@;
                out.push(p);
                assert(pending_views(out@) =~= pending_views(before).push(view));
                assert(wanted[k as int] == view);
                assert(inner + wanted.take(k + 1) =~= (inner + wanted.take(k as int)).push(view));
                k = k + 1;
            }
            assert(wanted.take(k as int) =~= wanted);
            assert(pending_views(out@) =~= base + scopes_records(
                fields.texts(),
                scopes.take(j + 1),
            ));
            j = j + 1;
        }
        assert(scopes.take(j as int) =~= scopes);
        i = i + 1;
    }
    assert(resources.take(i as int) =~= resources);
    out
}

/// Flattens a request; where a record has no time, the wall clock gives it one.
pub fn decode_export_request(request: &ExportLogsServiceRequest) -> (r: Vec<WireRecord>)
    ensures
        r@.len() == request_records(request.resource_logs@).len(),
        forall|i: int|
            0 <= i < r@.len() ==> record::is_stamped(
                (#[trigger] r@[i])@,
                request_records(request.resource_logs@)[i],
            ),
{
    let pending: Vec<PendingRecord> = flatten_request(request);
    let ghost all = pending@;
    let ghost wanted = request_records(request.resource_logs@);
    assert(wanted == pending_views(all));
    let mut out: Vec<WireRecord> = Vec::new();
    for p in it: pending.into_iter()
        invariant
            it.seq() == all,
            wanted == pending_views(all),
            out@.len() == it.index(),
            forall|i: int|
                0 <= i < out@.len() ==> record::is_stamped((#[trigger] out@[i])@, wanted[i]),
    {
        let ghost n = it.index();
        assert(wanted[n] == all[n]@);
        let now: i64 = now_ns();
        let w: WireRecord = p.stamp(now);
        assert(w@ == record::stamped(wanted[n], now));
        out.push(w);
    }
    out
}

/// A record's own attribute wins over its resource's.
pub proof fn law_own_attributes_win(
    resource: Map<Seq<char>, Seq<char>>,
    attributes: Seq<Attribute>,
    k: Seq<char>,
)
    ensures
        with_attributes(resource, attributes).dom().contains(k) <==> resource.dom().contains(k)
            || with_attributes(Map::empty(), attributes).dom().contains(k),
        with_attributes(Map::empty(), attributes).dom().contains(k) ==> with_attributes(
            resource,
            attributes,
        )[k] == with_attributes(Map::empty(), attributes)[k],
        !with_attributes(Map::empty(), attributes).dom().contains(k) && resource.dom().contains(k)
            ==> with_attributes(resource, attributes)[k] == resource[k],
    decreases attributes.len(),
{
    if attributes.len() > 0 {
        law_own_attributes_win(resource, attributes.drop_last(), k);
    }
}

/// A time that the request gives is never negative and never zero.
pub proof fn law_sent_times_are_positive(log: Log)
    ensures
        log_time(log) matches Some(t) ==> t > 0 && (t == log.time_unix_nano || t
            == log.observed_time_unix_nano),
        log_time(log) is None <==> (log.time_unix_nano == 0 || log.time_unix_nano > i64::MAX) && (
        log.observed_time_unix_nano == 0 || log.observed_time_unix_nano > i64::MAX),
{
}

/// The time of a record: where the event's time is given and fits 63 bits it is that one,
/// whatever the time of observation is; only otherwise, where the time of observation is
/// given and fits, it is that one; and where neither is, it is left open.
pub proof fn law_event_time_wins(
    resource: Map<Seq<char>, Seq<char>>,
    log: Log,
    level: Seq<char>,
)
    ensures
        0 < log.time_unix_nano <= i64::MAX ==> record_with(resource, log, level).timestamp_ns
            == Some(log.time_unix_nano as i64),
        !(0 < log.time_unix_nano <= i64::MAX) && 0 < log.observed_time_unix_nano <= i64::MAX
            ==> record_with(resource, log, level).timestamp_ns == Some(
            log.observed_time_unix_nano as i64,
        ),
        !(0 < log.time_unix_nano <= i64::MAX) && !(0 < log.observed_time_unix_nano <= i64::MAX)
            ==> record_with(resource, log, level).timestamp_ns is None,
{
}

/// The message of a record is its body: a text as it is, a boolean as its word, a whole
/// number in decimal, bytes in hexadecimal, any other value as the text it is shown by, and
/// nothing where there is no body or it holds no value.
pub proof fn law_message_is_the_body(
    resource: Map<Seq<char>, Seq<char>>,
    log: Log,
    level: Seq<char>,
)
    ensures
        log.body is None ==> record_with(resource, log, level).message.len() == 0,
        log.body matches Some(Any::Absent) ==> record_with(resource, log, level).message.len()
            == 0,
        log.body matches Some(Any::Text(s)) ==> record_with(resource, log, level).message == s,
        log.body matches Some(Any::Shown(s)) ==> record_with(resource, log, level).message == s,
        log.body matches Some(Any::Bool(b)) ==> record_with(resource, log, level).message == if b {
            seq!['t', 'r', 'u', 'e']
        } else {
            seq!['f', 'a', 'l', 's', 'e']
        },
        log.body matches Some(Any::Int(i)) ==> decimal::integer_of(
            record_with(resource, log, level).message,
        ) == Some(i as int),
        log.body matches Some(Any::Bytes(b)) ==> record_with(resource, log, level).message.len()
            == 2 * b.len(),
{
    reveal_strlit("true");
    reveal_strlit("false");
    assert("true"@ =~= seq!['t', 'r', 'u', 'e']);
    assert("false"@ =~= seq!['f', 'a', 'l', 's', 'e']);
    if let Some(Any::Int(i)) = log.body {
        decimal::law_int_text_round_trip(i as int);
    }
    if let Some(Any::Bytes(b)) = log.body {
        hextext::law_two_digits_a_byte(b);
    }
}

/// The name of no field that is made of a severity or an id.
pub open spec fn is_plain_name(name: Seq<char>) -> bool {
    name != "severity_number"@ && name != "level"@ && name != "trace_id"@ && name != "span_id"@
}

/// The last attribute of a name that has a value is a field of the record, in words or
/// digits as a message would be; where no attribute of that name has a value, the field is
/// the resource's, if it has one, and else there is no such field.
pub proof fn law_last_attribute_is_the_field(
    resource: Map<Seq<char>, Seq<char>>,
    log: Log,
    level: Seq<char>,
    i: int,
    name: Seq<char>,
)
    requires
        is_plain_name(name),
    ensures
        ({
            let fields = record_with(resource, log, level).fields;
            let last = 0 <= i < log.attributes.len() && log.attributes[i].0 == name
                && log.attributes[i].1 is Some && (forall|j: int|
                i < j < log.attributes.len() && (#[trigger] log.attributes[j]).0 == name
                    ==> log.attributes[j].1 is None);
            &&& last ==> fields.dom().contains(name)
            &&& last && log.attributes[i].1->0 is Text ==> fields[name]
                == log.attributes[i].1->0->Text_0
            &&& last && log.attributes[i].1->0 is Shown ==> fields[name]
                == log.attributes[i].1->0->Shown_0
            &&& last && log.attributes[i].1->0 is Absent ==> fields[name].len() == 0
            &&& last && log.attributes[i].1->0 is Bool ==> fields[name] == if log.attributes[i].1
                ->0->Bool_0 {
                seq!['t', 'r', 'u', 'e']
            } else {
                seq!['f', 'a', 'l', 's', 'e']
            }
            &&& last && log.attributes[i].1->0 is Int ==> decimal::integer_of(fields[name])
                == Some(log.attributes[i].1->0->Int_0 as int)
            &&& last && log.attributes[i].1->0 is Bytes ==> fields[name] == hextext::hex_text(
                log.attributes[i].1->0->Bytes_0,
            )
            &&& (forall|j: int|
                0 <= j < log.attributes.len() && (#[trigger] log.attributes[j]).0 == name
                    ==> log.attributes[j].1 is None) ==> {
                &&& fields.dom().contains(name) <==> resource.dom().contains(name)
                &&& resource.dom().contains(name) ==> fields[name] == resource[name]
            }
        }),
{
    reveal_strlit("true");
    reveal_strlit("false");
    assert("true"@ =~= seq!['t', 'r', 'u', 'e']);
    assert("false"@ =~= seq!['f', 'a', 'l', 's', 'e']);
    lemma_last_attribute(resource, log.attributes, i, name);
    if 0 <= i < log.attributes.len() {
        if let Some(Any::Int(n)) = log.attributes[i].1 {
            decimal::law_int_text_round_trip(n as int);
        }
    }
}

proof fn lemma_last_attribute(
    resource: Map<Seq<char>, Seq<char>>,
    attributes: Seq<Attribute>,
    i: int,
    name: Seq<char>,
)
    ensures
        0 <= i < attributes.len() && attributes[i].0 == name && attributes[i].1 is Some && (forall|
            j: int,
        |
            i < j < attributes.len() && (#[trigger] attributes[j]).0 == name
                ==> attributes[j].1 is None) ==> with_attributes(
            resource,
            attributes,
        ).dom().contains(name) && with_attributes(resource, attributes)[name] == shown(
            attributes[i].1->0,
        ),
        (forall|j: int|
            0 <= j < attributes.len() && (#[trigger] attributes[j]).0 == name
                ==> attributes[j].1 is None) ==> (with_attributes(
            resource,
            attributes,
        ).dom().contains(name) <==> resource.dom().contains(name)) && (resource.dom().contains(
            name,
        ) ==> with_attributes(resource, attributes)[name] == resource[name]),
    decreases attributes.len(),
{
    if attributes.len() > 0 {
        let rest = attributes.drop_last();
        assert(forall|j: int| 0 <= j < rest.len() ==> rest[j] == attributes[j]);
        assert(attributes.last() == attributes[attributes.len() - 1]);
        lemma_last_attribute(resource, rest, i, name);
    }
}

/// A severity number other than zero, a severity text and the two ids are fields of the
/// record, and win over an attribute of that name.
pub proof fn law_severity_and_ids_are_fields(
    resource: Map<Seq<char>, Seq<char>>,
    log: Log,
    level: Seq<char>,
)
    ensures
        ({
            let fields = record_with(resource, log, level).fields;
            &&& log.severity_number != 0 ==> fields.dom().contains("severity_number"@)
                && decimal::integer_of(fields["severity_number"@]) == Some(
                log.severity_number as int,
            )
            &&& log.severity_text.len() > 0 ==> fields.dom().contains("level"@) && fields["level"@]
                == level
            &&& log.trace_id.len() > 0 ==> fields.dom().contains("trace_id"@)
                && fields["trace_id"@] == hextext::hex_text(log.trace_id)
            &&& log.span_id.len() > 0 ==> fields.dom().contains("span_id"@) && fields["span_id"@]
                == hextext::hex_text(log.span_id)
            &&& log.severity_number == 0 && log.severity_text.len() == 0 && log.trace_id.len() == 0
                && log.span_id.len() == 0 && log.attributes.len() == 0 ==> fields == resource
        }),
        record_of_log(resource, log) == record_with(
            resource,
            log,
            lowercase_text(log.severity_text),
        ),
{
    reveal_strlit("severity_number");
    reveal_strlit("level");
    reveal_strlit("trace_id");
    reveal_strlit("span_id");
    assert("severity_number"@.len() == 15);
    assert("level"@.len() == 5);
    assert("trace_id"@.len() == 8);
    assert("span_id"@.len() == 7);
    decimal::law_int_text_round_trip(log.severity_number as int);
}

/// A request gives one record for every log record, in their order: those of a resource
/// after those of the resources before it, those of a scope after those of the scopes before
/// it, each with the fields of its own resource.
pub proof fn law_every_log_record_is_flattened(
    before: Seq<ResourceLogs>,
    resource: ResourceLogs,
    k: int,
    i: int,
)
    ensures
        request_records(Seq::<ResourceLogs>::empty()).len() == 0,
        request_records(before).is_prefix_of(request_records(before.push(resource))),
        request_records(before.push(resource)).skip(request_records(before).len() as int)
            == scopes_records(resource_fields(resource.resource), resource.scope_logs@),
        0 <= k < resource.scope_logs@.len() && 0 <= i < resource.scope_logs@[k].log_records@.len()
            ==> ({
            let fields = resource_fields(resource.resource);
            let ahead = scopes_records(fields, resource.scope_logs@.take(k)).len() as int;
            let all = scopes_records(fields, resource.scope_logs@);
            &&& ahead + i < all.len()
            &&& all[ahead + i] == record_of_log(fields, resource.scope_logs@[k].log_records@[i]@)
            &&& scopes_records(fields, resource.scope_logs@.take(k + 1)).len() == ahead
                + resource.scope_logs@[k].log_records@.len()
        }),
        resource.resource is None ==> resource_fields(resource.resource) == Map::<
            Seq<char>,
            Seq<char>,
        >::empty(),
{
    let all = before.push(resource);
    assert(all.drop_last() =~= before);
    let fields = resource_fields(resource.resource);
    let tail = scopes_records(fields, resource.scope_logs@);
    assert(request_records(all) == request_records(before) + tail);
    assert(request_records(all).skip(request_records(before).len() as int) =~= tail);
    if 0 <= k < resource.scope_logs@.len() && 0 <= i
        < resource.scope_logs@[k].log_records@.len() {
        lemma_scope_in_place(fields, resource.scope_logs@, k, i);
    }
}

proof fn lemma_scope_in_place(
    fields: Map<Seq<char>, Seq<char>>,
    scopes: Seq<ScopeLogs>,
    k: int,
    i: int,
)
    requires
        0 <= k < scopes.len(),
        0 <= i < scopes[k].log_records@.len(),
    ensures
        ({
            let ahead = scopes_records(fields, scopes.take(k)).len() as int;
            &&& ahead + i < scopes_records(fields, scopes).len()
            &&& scopes_records(fields, scopes)[ahead + i] == record_of_log(
                fields,
                scopes[k].log_records@[i]@,
            )
            &&& scopes_records(fields, scopes.take(k + 1)).len() == ahead
                + scopes[k].log_records@.len()
        }),
    decreases scopes.len(),
{
    let rest = scopes.drop_last();
    if k == scopes.len() - 1 {
        assert(scopes.take(k) =~= rest);
        assert(scopes.take(k + 1) =~= scopes);
    } else {
        lemma_scope_in_place(fields, rest, k, i);
        assert(rest.take(k) =~= scopes.take(k));
        assert(rest.take(k + 1) =~= scopes.take(k + 1));
    }
}

/// The contents of a log record are its own: every part by its own name, and every attribute
/// with its key and its value, in their order.
pub proof fn law_log_records_are_taken_as_sent(log: LogRecord, i: int)
    ensures
        log@.time_unix_nano == log.time_unix_nano,
        log@.observed_time_unix_nano == log.observed_time_unix_nano,
        log@.severity_number == log.severity_number,
        log@.severity_text == log.severity_text@,
        log@.trace_id == log.trace_id@,
        log@.span_id == log.span_id@,
        log@.body is Some <==> log.body is Some,
        log.body is Some ==> log@.body->0 == log.body->0@,
        log@.attributes.len() == log.attributes@.len(),
        0 <= i < log.attributes@.len() ==> log@.attributes[i].0 == log.attributes@[i].key@,
        0 <= i < log.attributes@.len() ==> (log@.attributes[i].1 is Some
            <==> log.attributes@[i].value is Some),
        0 <= i < log.attributes@.len() && log.attributes@[i].value is Some
            ==> log@.attributes[i].1->0 == log.attributes@[i].value->0@,
{
}

/// The contents of a value are its own.
pub proof fn law_values_are_taken_as_sent(v: AnyValue)
    ensures
        v is Absent <==> v@ is Absent,
        v is Text ==> v@ == Any::Text(v->Text_0@),
        v is Bool ==> v@ == Any::Bool(v->Bool_0),
        v is Int ==> v@ == Any::Int(v->Int_0),
        v is Bytes ==> v@ == Any::Bytes(v->Bytes_0@),
        v is Shown ==> v@ == Any::Shown(v->Shown_0@),
{
}

} // verus!
