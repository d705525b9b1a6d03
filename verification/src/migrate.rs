//! Migration out of Elasticsearch: its options, its documents, and the scroll it walks.

use vstd::prelude::*;

use crate::clock;
use crate::clock::parse_instant;
use crate::json;
use crate::json::{
    find_member, find_text, json_array, json_object, open_member, render_object, JsonShape, JsonValue,
};
use crate::record;
use crate::record::{allows, PendingRecord, Record, WireRecord};
use crate::strmap::FieldMap;
use crate::template;
use crate::template::template_id;
use crate::text;
use crate::text::{concat, concat3, quoted, same_text, to_chars};

verus! {

/// What becomes of the members of a document that are no fields.
#[derive(Debug, Clone, Copy, PartialEq, Eq, Structural)]
pub enum UnmappedStrategy {
    /// They are dropped.
    Lossy,
    /// They are kept as one JSON object in the field `_meta`.
    Preserve,
}

/// The strategy that a text names.
pub open spec fn strategy_of(s: Seq<char>) -> Result<UnmappedStrategy, Seq<char>> {
    if s == "lossy"@ {
        Ok(UnmappedStrategy::Lossy)
    } else if s == "preserve"@ {
        Ok(UnmappedStrategy::Preserve)
    } else {
        Err(
            "unknown --unmapped value: "@ + text::debug_text(s)
                + "; use 'lossy' or 'preserve'"@,
        )
    }
}

impl UnmappedStrategy {
    /// Reads the name of a strategy.
    pub fn parse(s: &str) -> (r: Result<Self, String>)
        ensures
            match r {
                Ok(u) => strategy_of(s@) == Ok::<UnmappedStrategy, Seq<char>>(u),
                Err(e) => strategy_of(s@) == Err::<UnmappedStrategy, Seq<char>>(e@),
            },
    {
        if same_text(s, "lossy") {
            Ok(UnmappedStrategy::Lossy)
        } else if same_text(s, "preserve") {
            Ok(UnmappedStrategy::Preserve)
        } else {
            Err(
                concat3(
                    "unknown --unmapped value: ",
                    quoted(s).as_str(),
                    "; use 'lossy' or 'preserve'",
                ),
            )
        }
    }
}

impl std::str::FromStr for UnmappedStrategy {
    type Err = String;

    fn from_str(s: &str) -> (r: Result<Self, String>)
        ensures
            match r {
                Ok(u) => strategy_of(s@) == Ok::<UnmappedStrategy, Seq<char>>(u),
                Err(e) => strategy_of(s@) == Err::<UnmappedStrategy, Seq<char>>(e@),
            },
    {
        UnmappedStrategy::parse(s)
    }
}

/// A character that would let an index name leave its place in a URL.
pub open spec fn is_unsafe(c: char) -> bool {
    c == '/' || c == '?' || c == '#' || c == '&' || c == ' ' || c == '\\'
}

/// An index name that stays in its place in a URL.
pub open spec fn is_safe_index(index: Seq<char>) -> bool {
    forall|i: int| 0 <= i < index.len() ==> !is_unsafe(#[trigger] index[i])
}

pub open spec fn index_error(index: Seq<char>) -> Seq<char> {
    "invalid --index "@ + text::debug_text(index)
        + ": must not contain '/', '?', '#', '&', '\\\\', or spaces"@
}

/// Refuses an index name that would leave its place in a URL.
pub fn check_index(index: &str) -> (r: Result<(), String>)
    ensures
        match r {
            Ok(_) => is_safe_index(index@),
            Err(e) => !is_safe_index(index@) && e@ == index_error(index@),
        },
{
    let chars: Vec<char> = to_chars(index);
    let mut i: usize = 0;
    while i < chars.len()
        invariant
            i <= chars@.len(),
            chars@ == index@,
            forall|j: int| 0 <= j < i ==> !is_unsafe(#[trigger] index@[j]),
        decreases chars.len() - i,
    {
        let c: char = chars[i];
        if c == '/' || c == '?' || c == '#' || c == '&' || c == ' ' || c == '\\' {
            assert(is_unsafe(index@[i as int]));
            return Err(
                concat3(
                    "invalid --index ",
                    quoted(index).as_str(),
                    ": must not contain '/', '?', '#', '&', '\\\\', or spaces",
                ),
            );
        }
        i = i + 1;
    }
    Ok(())
}

/// Milliseconds as nanoseconds, as 64-bit integers multiply: the product wraps around.
pub fn millis_to_nanos(ms: i64) -> (r: i64)
    ensures
        r == millis_ns(ms),
        i64::MIN <= ms * 1_000_000 <= i64::MAX ==> r == ms * 1_000_000,
{
    ms.wrapping_mul(1_000_000)
}

pub open spec fn millis_ns(ms: i64) -> i64 {
    ms.wrapping_mul(1_000_000)
}

/// How a member is shown as a field: a string by its text, all else by its JSON text.
pub open spec fn shown(v: json::Json) -> Seq<char> {
    match v.shape {
        json::Shape::Text(s) => s,
        _ => v.text,
    }
}

/// The allowed members of a document, as fields.
pub open spec fn mapped_fields(doc: Seq<(Seq<char>, json::Json)>, allowed: Seq<String>) -> Map<
    Seq<char>,
    Seq<char>,
> {
    Map::new(
        |k: Seq<char>| record::is_allowed(allowed, k) && json::member(doc, k) is Some,
        |k: Seq<char>| shown(json::member(doc, k)->0),
    )
}

/// The member is neither a field nor the time nor the message.
pub open spec fn is_unmapped(allowed: Seq<String>, name: Seq<char>) -> bool {
    !record::is_allowed(allowed, name) && name != "@timestamp"@ && name != "message"@
}

/// The members that are neither fields nor the time nor the message, with their texts.
pub open spec fn unmapped(doc: Seq<(Seq<char>, json::Json)>, allowed: Seq<String>) -> Seq<
    (Seq<char>, Seq<char>),
>
    decreases doc.len(),
{
    if doc.len() == 0 {
        seq![]
    } else {
        let rest = unmapped(doc.drop_last(), allowed);
        if is_unmapped(allowed, doc.last().0) {
            rest.push((doc.last().0, doc.last().1.text))
        } else {
            rest
        }
    }
}

/// The time of a document: what its `@timestamp` stands for, given as a text or as a
/// number of milliseconds. `instant` is what the text stands for.
pub open spec fn doc_time(doc: Seq<(Seq<char>, json::Json)>, instant: Option<i64>) -> Option<i64> {
    match json::member(doc, "@timestamp"@) {
        Some(v) => match v.shape {
            json::Shape::Text(_) => instant,
            json::Shape::Number(Some(ms)) => Some(millis_ns(ms)),
            _ => None,
        },
        None => None,
    }
}

/// The message of a document: its `message`, else `inner`, the `message` inside its `log`.
pub open spec fn doc_message(
    doc: Seq<(Seq<char>, json::Json)>,
    inner: Option<Seq<char>>,
) -> Seq<char> {
    match json::as_text(json::member(doc, "message"@)) {
        Some(s) => s,
        None => match inner {
            Some(s) => s,
            None => seq![],
        },
    }
}

/// The fields of a document, with `meta` for what is not mapped, where there is any.
pub open spec fn doc_all_fields(
    doc: Seq<(Seq<char>, json::Json)>,
    allowed: Seq<String>,
    strategy: UnmappedStrategy,
    meta: Seq<char>,
) -> Map<Seq<char>, Seq<char>> {
    if strategy is Preserve && unmapped(doc, allowed).len() > 0 {
        mapped_fields(doc, allowed).insert("_meta"@, meta)
    } else {
        mapped_fields(doc, allowed)
    }
}

/// What the text of the `log` member holds under `message`.
pub open spec fn inner_message(doc: Seq<(Seq<char>, json::Json)>) -> Option<Seq<char>> {
    match json::member(doc, "log"@) {
        Some(v) => match json::json_object_of(v.text) {
            Ok(Some(inner)) => json::as_text(json::member(inner, "message"@)),
            _ => None,
        },
        None => None,
    }
}

/// What the `@timestamp` text of a document stands for.
pub open spec fn doc_instant(doc: Seq<(Seq<char>, json::Json)>) -> Option<i64> {
    match json::as_text(json::member(doc, "@timestamp"@)) {
        Some(s) => clock::instant_of(s),
        None => None,
    }
}

/// The record of a document.
pub open spec fn record_of_doc(
    doc: Seq<(Seq<char>, json::Json)>,
    allowed: Seq<String>,
    strategy: UnmappedStrategy,
) -> record::Pending {
    record::Pending {
        timestamp_ns: doc_time(doc, doc_instant(doc)),
        message: doc_message(doc, inner_message(doc)),
        fields: doc_all_fields(
            doc,
            allowed,
            strategy,
            json::object_text(unmapped(doc, allowed)),
        ),
    }
}

/// The record that is stored for a document: all its fields, `_meta` among them.
pub open spec fn migrated(
    doc: Seq<(Seq<char>, json::Json)>,
    allowed: Seq<String>,
    strategy: UnmappedStrategy,
    now: i64,
) -> record::Stored {
    let wire = record::stamped(record_of_doc(doc, allowed, strategy), now);
    record::Stored {
        timestamp_ns: wire.timestamp_ns,
        message: wire.message,
        fields: wire.fields,
        template_id: template::shape_id(template::masked(wire.message)),
    }
}

fn map_fields(doc: &Vec<(String, JsonValue)>, allowed: &[String]) -> (r: FieldMap)
    ensures
        r.texts() == mapped_fields(json::members(doc@), allowed@),
{
    let ghost all = json::members(doc@);
    let mut fields: FieldMap = FieldMap::empty();
    let mut i: usize = 0;
    while i < allowed.len()
        invariant
            i <= allowed@.len(),
            all == json::members(doc@),
            fields.texts() == mapped_fields(all, allowed@.take(i as int)),
        decreases allowed.len() - i,
    {
        let ghost before = fields.texts();
        let name: &str = allowed[i].as_str();
        match find_member(doc, name) {
            Some(v) => {
                let shown_text: &str = match &v.shape {
                    JsonShape::Text(s) => s.as_str(),
                    _ => v.text.as_str(),
                };
                fields.put(name, shown_text);
            },
            None => {},
        }
        proof {
            let head = allowed@.take(i as int);
            let more = allowed@.take(i + 1);
            assert forall|k: Seq<char>| record::is_allowed(more, k) == (record::is_allowed(head, k)
                || k == name@) by {
                if record::is_allowed(more, k) {
                    let j = choose|j: int| 0 <= j < more.len() && (#[trigger] more[j])@ == k;
                    if j < i {
                        assert(head[j]@ == k);
                    }
                }
                if record::is_allowed(head, k) {
                    let j = choose|j: int| 0 <= j < head.len() && (#[trigger] head[j])@ == k;
                    assert(more[j]@ == k);
                }
                if k == name@ {
                    assert(more[i as int]@ == k);
                }
            }
            assert(fields.texts() =~= mapped_fields(all, more));
        }
        i = i + 1;
    }
    assert(allowed@.take(i as int) =~= allowed@);
    fields
}

fn unmapped_pairs<'a>(doc: &'a Vec<(String, JsonValue)>, allowed: &[String]) -> (r: Vec<
    (&'a str, &'a str),
>)
    ensures
        json::pair_views(r@) == unmapped(json::members(doc@), allowed@),
{
    let ghost all = json::members(doc@);
    let mut out: Vec<(&'a str, &'a str)> = Vec::new();
    let mut i: usize = 0;
    while i < doc.len()
        invariant
            i <= doc@.len(),
            all == json::members(doc@),
            json::pair_views(out@) == unmapped(all.take(i as int), allowed@),
        decreases doc.len() - i,
    {
        assert(all.take(i + 1).drop_last() =~= all.take(i as int));
        assert(all.take(i + 1).last() == (doc@[i as int].0@, doc@[i as int].1@));
        let name: &'a str = doc[i].0.as_str();
        let ghost before = out@;
        if !allows(allowed, name) && !same_text(name, "@timestamp") && !same_text(
            name,
            "message",
        ) {
            out.push((name, doc[i].1.text.as_str()));
            assert(json::pair_views(out@) =~= json::pair_views(before).push(
                (name@, doc@[i as int].1.text@),
            ));
        }
        i = i + 1;
    }
    assert(all.take(i as int) =~= all);
    out
}

/// Builds the record of a document out of what was read of its parts: what its timestamp
/// text stands for, the message inside its `log`, and the text of its unmapped members.
pub fn record_from_parts(
    doc: &Vec<(String, JsonValue)>,
    allowed_fields: &[String],
    unmapped_strategy: UnmappedStrategy,
    instant: Option<i64>,
    inner: Option<&str>,
    meta: &str,
) -> (r: PendingRecord)
    ensures
        r@ == (record::Pending {
            timestamp_ns: doc_time(json::members(doc@), instant),
            message: doc_message(
                json::members(doc@),
                match inner {
                    Some(s) => Some(s@),
                    None => None,
                },
            ),
            fields: doc_all_fields(
                json::members(doc@),
                allowed_fields@,
                unmapped_strategy,
                meta@,
            ),
        }),
{
    let timestamp_ns: Option<i64> = match find_member(doc, "@timestamp") {
        Some(v) => match &v.shape {
            JsonShape::Text(_) => instant,
            JsonShape::Number(Some(ms)) => Some(millis_to_nanos(*ms)),
            _ => None,
        },
        None => None,
    };
    proof {
        reveal_strlit("");
        assert(""@ =~= Seq::<char>::empty());
    }
    let message: &str = match find_text(doc, "message") {
        Some(s) => s,
        None => match inner {
            Some(s) => s,
            None => "",
        },
    };
    let mut fields: FieldMap = map_fields(doc, allowed_fields);
    let preserve: bool = match unmapped_strategy {
        UnmappedStrategy::Preserve => true,
        UnmappedStrategy::Lossy => false,
    };
    if preserve {
        let pairs: Vec<(&str, &str)> = unmapped_pairs(doc, allowed_fields);
        assert(pairs@.len() == unmapped(json::members(doc@), allowed_fields@).len());
        if pairs.len() > 0 {
            fields.put("_meta", meta);
        }
    }
    PendingRecord { timestamp_ns, message: message.to_string(), fields }
}

/// Builds the record of a document, leaving its time open where it gives none.
pub fn doc_to_wire(
    doc: &Vec<(String, JsonValue)>,
    allowed_fields: &[String],
    unmapped_strategy: UnmappedStrategy,
) -> (r: PendingRecord)
    ensures
        r@ == record_of_doc(json::members(doc@), allowed_fields@, unmapped_strategy),
{
    let instant: Option<i64> = match find_text(doc, "@timestamp") {
        Some(s) => parse_instant(s),
        None => None,
    };
    let inner_doc: Option<Vec<(String, JsonValue)>> = match find_member(doc, "log") {
        Some(v) => match json_object(v.text.as_str()) {
            Ok(Some(d)) => Some(d),
            _ => None,
        },
        None => None,
    };
    let inner: Option<&str> = match &inner_doc {
        Some(d) => find_text(d, "message"),
        None => None,
    };
    let pairs: Vec<(&str, &str)> = unmapped_pairs(doc, allowed_fields);
    let meta: String = render_object(&pairs);
    record_from_parts(doc, allowed_fields, unmapped_strategy, instant, inner, meta.as_str())
}

/// Builds the record that is stored for a document, with `now` as its time where it gives
/// none. What the strategy preserves is stored whether or not `_meta` is an allowed field.
pub fn migrated_record(
    doc: &Vec<(String, JsonValue)>,
    allowed_fields: &[String],
    unmapped_strategy: UnmappedStrategy,
    now: i64,
) -> (r: Record)
    ensures
        r@ == migrated(json::members(doc@), allowed_fields@, unmapped_strategy, now),
{
    let wire: WireRecord = doc_to_wire(doc, allowed_fields, unmapped_strategy).stamp(now);
    let id: u64 = template_id(wire.message.as_str());
    Record {
        timestamp_ns: wire.timestamp_ns,
        message: wire.message,
        fields: wire.fields,
        template_id: id,
    }
}

/// The options of a migration.
#[derive(Debug, PartialEq)]
pub struct MigrateOptions {
    pub url: String,
    pub index: String,
    pub unmapped: UnmappedStrategy,
}

/// Options as far as they were read: source, URL, index and strategy.
pub struct Options {
    pub from: Option<Seq<char>>,
    pub url: Option<Seq<char>>,
    pub index: Option<Seq<char>>,
    pub unmapped: UnmappedStrategy,
}

pub open spec fn no_options() -> Options {
    Options { from: None, url: None, index: None, unmapped: UnmappedStrategy::Lossy }
}

/// The value behind a flag, if there is one.
pub open spec fn next_arg(args: Seq<Seq<char>>, i: int) -> Option<Seq<char>> {
    if 0 <= i < args.len() {
        Some(args[i])
    } else {
        None
    }
}

/// Reads flags and their values from place `i` on; a later flag wins.
pub open spec fn read_flags(args: Seq<Seq<char>>, i: int, o: Options) -> Result<Options, Seq<char>>
    decreases
            (if i < args.len() {
                args.len() - i
            } else {
                0
            }),
{
    if i < 0 || i >= args.len() {
        Ok(o)
    } else if args[i] == "--from"@ {
        read_flags(args, i + 2, Options { from: next_arg(args, i + 1), ..o })
    } else if args[i] == "--url"@ {
        read_flags(args, i + 2, Options { url: next_arg(args, i + 1), ..o })
    } else if args[i] == "--index"@ {
        read_flags(args, i + 2, Options { index: next_arg(args, i + 1), ..o })
    } else if args[i] == "--unmapped"@ {
        match next_arg(args, i + 1) {
            None => Ok(o),
            Some(v) => match strategy_of(v) {
                Ok(u) => read_flags(args, i + 2, Options { unmapped: u, ..o }),
                Err(e) => Err(e),
            },
        }
    } else {
        Err("unknown migrate flag: "@ + args[i])
    }
}

/// The options must name a source that can be read, a URL and an index.
pub open spec fn checked_options(o: Options) -> Result<
    (Seq<char>, Seq<char>, UnmappedStrategy),
    Seq<char>,
> {
    match o.from {
        None => Err("missing --from"@),
        Some(source) => if source != "elasticsearch"@ {
            Err(
                "--from "@ + text::debug_text(source)
                    + " not supported; only 'elasticsearch' is available"@,
            )
        } else {
            match o.url {
                None => Err("missing --url"@),
                Some(url) => match o.index {
                    None => Err("missing --index"@),
                    Some(index) => Ok((url, index, o.unmapped)),
                },
            }
        },
    }
}

/// The options that a command line gives.
pub open spec fn options_of(args: Seq<Seq<char>>) -> Result<
    (Seq<char>, Seq<char>, UnmappedStrategy),
    Seq<char>,
> {
    match read_flags(args, 0, no_options()) {
        Err(e) => Err(e),
        Ok(o) => checked_options(o),
    }
}

pub open spec fn arg_views(args: Seq<String>) -> Seq<Seq<char>> {
    args.map_values(|a: String| a@)
}

fn opt_text(args: &Vec<String>, i: usize) -> (r: Option<String>)
    ensures
        match r {
            Some(s) => next_arg(arg_views(args@), i as int) == Some(s@),
            None => next_arg(arg_views(args@), i as int) is None,
        },
{
    if i < args.len() {
        Some(args[i].as_str().to_string())
    } else {
        None
    }
}

pub open spec fn opt_view(s: Option<String>) -> Option<Seq<char>> {
    match s {
        Some(t) => Some(t@),
        None => None,
    }
}

/// Reads the options of a migration.
pub fn parse_options(args: &Vec<String>) -> (r: Result<MigrateOptions, String>)
    ensures
        match r {
            Ok(o) => options_of(arg_views(args@)) == Ok::<
                (Seq<char>, Seq<char>, UnmappedStrategy),
                Seq<char>,
            >((o.url@, o.index@, o.unmapped)),
            Err(e) => options_of(arg_views(args@)) == Err::<
                (Seq<char>, Seq<char>, UnmappedStrategy),
                Seq<char>,
            >(e@),
        },
{
    let ghost all = arg_views(args@);
    let mut from: Option<String> = None;
    let mut url: Option<String> = None;
    let mut index: Option<String> = None;
    let mut unmapped: UnmappedStrategy = UnmappedStrategy::Lossy;
    let mut i: usize = 0;
    while i < args.len()
        invariant
            i <= args@.len(),
            all == arg_views(args@),
            read_flags(
                all,
                i as int,
                Options { from: opt_view(from), url: opt_view(url), index: opt_view(index), unmapped },
            ) == read_flags(all, 0, no_options()),
        decreases args@.len() - i,
    {
        let flag: &str = args[i].as_str();
        assert(all[i as int] == flag@);
        if same_text(flag, "--from") {
            from = opt_text(args, i + 1);
        } else if same_text(flag, "--url") {
            url = opt_text(args, i + 1);
        } else if same_text(flag, "--index") {
            index = opt_text(args, i + 1);
        } else if same_text(flag, "--unmapped") {
            match opt_text(args, i + 1) {
                Some(v) => match UnmappedStrategy::parse(v.as_str()) {
                    Ok(u) => {
                        unmapped = u;
                    },
                    Err(e) => {
                        return Err(e);
                    },
                },
                None => {},
            }
        } else {
            return Err(concat("unknown migrate flag: ", flag));
        }
        if i + 1 < args.len() {
            i = i + 2;
        } else {
            proof {
                let o = Options {
                    from: opt_view(from),
                    url: opt_view(url),
                    index: opt_view(index),
                    unmapped,
                };
                assert(read_flags(all, i + 2, o) == Ok::<Options, Seq<char>>(o));
                assert(read_flags(all, all.len() as int, o) == Ok::<Options, Seq<char>>(o));
            }
            i = args.len();
        }
    }
    match from {
        None => Err("missing --from".to_string()),
        Some(source) => {
            if !same_text(source.as_str(), "elasticsearch") {
                return Err(
                    concat3(
                        "--from ",
                        quoted(source.as_str()).as_str(),
                        " not supported; only 'elasticsearch' is available",
                    ),
                );
            }
            match url {
                None => Err("missing --url".to_string()),
                Some(u) => match index {
                    None => Err("missing --index".to_string()),
                    Some(x) => Ok(MigrateOptions { url: u, index: x, unmapped }),
                },
            }
        },
    }
}

/// One page of a scroll, as far as the answer had it.
#[derive(Debug)]
pub struct ScrollPage {
    pub scroll_id: Option<String>,
    /// The sources of the hits; `None` where the answer had no list of hits. A hit whose
    /// source is no object has none.
    pub hits: Option<Vec<Option<Vec<(String, JsonValue)>>>>,
}

/// What a hit's text holds under `_source`, if that is an object.
pub open spec fn source_of(hit: json::Json) -> Option<Seq<(Seq<char>, json::Json)>> {
    match json::json_object_of(hit.text) {
        Ok(Some(doc)) => json::object_member(doc, "_source"@),
        _ => None,
    }
}

/// The items of an answer's list of hits, which is `hits` inside `hits`.
pub open spec fn hits_of(answer: Seq<(Seq<char>, json::Json)>) -> Option<Seq<json::Json>> {
    match json::object_member(answer, "hits"@) {
        Some(outer) => match json::member(outer, "hits"@) {
            Some(list) => json::json_array_of(list.text),
            None => None,
        },
        None => None,
    }
}

/// The sources of hits.
pub open spec fn sources_of(hits: Seq<json::Json>) -> Seq<Option<Seq<(Seq<char>, json::Json)>>> {
    hits.map_values(|hit: json::Json| source_of(hit))
}

/// The contents of a `ScrollPage`.
#[verifier::ext_equal]
pub struct Page {
    pub scroll_id: Option<Seq<char>>,
    pub hits: Option<Seq<Option<Seq<(Seq<char>, json::Json)>>>>,
}

impl View for ScrollPage {
    type V = Page;

    open spec fn view(&self) -> Page {
        Page {
            scroll_id: match self.scroll_id {
                Some(id) => Some(id@),
                None => None,
            },
            hits: match self.hits {
                Some(hits) => Some(hit_views(hits@)),
                None => None,
            },
        }
    }
}

pub open spec fn hit_views(hits: Seq<Option<Vec<(String, JsonValue)>>>) -> Seq<
    Option<Seq<(Seq<char>, json::Json)>>,
> {
    hits.map_values(|hit: Option<Vec<(String, JsonValue)>>| json::doc_view(hit))
}

/// The page that an answer is: nothing of it where the answer is no object.
pub open spec fn page_of(answer: Option<Seq<(Seq<char>, json::Json)>>) -> Page {
    match answer {
        None => Page { scroll_id: None, hits: None },
        Some(doc) => Page {
            scroll_id: json::as_text(json::member(doc, "_scroll_id"@)),
            hits: match hits_of(doc) {
                Some(hits) => Some(sources_of(hits)),
                None => None,
            },
        },
    }
}

fn read_source(hit: &JsonValue) -> (r: Option<Vec<(String, JsonValue)>>)
    ensures
        json::doc_view(r) == source_of(hit@),
{
    match json_object(hit.text.as_str()) {
        Ok(Some(doc)) => open_member(&doc, "_source"),
        _ => None,
    }
}

fn read_hits(answer: &Vec<(String, JsonValue)>) -> (r: Option<Vec<JsonValue>>)
    ensures
        json::array_view(r) == hits_of(json::members(answer@)),
{
    match open_member(answer, "hits") {
        Some(outer) => match find_member(&outer, "hits") {
            Some(list) => json_array(list.text.as_str()),
            None => None,
        },
        None => None,
    }
}

/// Reads a page out of the text of an answer; an error where it is no JSON.
pub fn read_page(answer: &str) -> (r: Result<ScrollPage, String>)
    ensures
        match r {
            Ok(page) => json::json_object_of(answer@) matches Ok(doc) && page@ == page_of(doc),
            Err(e) => json::json_object_of(answer@) == Err::<
                Option<Seq<(Seq<char>, json::Json)>>,
                Seq<char>,
            >(e@),
        },
{
    let doc: Vec<(String, JsonValue)> = match json_object(answer) {
        Err(e) => {
            return Err(e);
        },
        Ok(None) => {
            return Ok(ScrollPage { scroll_id: None, hits: None });
        },
        Ok(Some(doc)) => doc,
    };
    let scroll_id: Option<String> = match find_text(&doc, "_scroll_id") {
        Some(id) => Some(id.to_string()),
        None => None,
    };
    let values: Vec<JsonValue> = match read_hits(&doc) {
        None => {
            return Ok(ScrollPage { scroll_id, hits: None });
        },
        Some(values) => values,
    };
    let ghost all = json::items(values@);
    let mut hits: Vec<Option<Vec<(String, JsonValue)>>> = Vec::new();
    let mut i: usize = 0;
    while i < values.len()
        invariant
            i <= values@.len(),
            all == json::items(values@),
            hit_views(hits@) == sources_of(all).take(i as int),
        decreases values.len() - i,
    {
        let source: Option<Vec<(String, JsonValue)>> = read_source(&values[i]);
        let ghost before = hits@;
        let ghost view = json::doc_view(source);
        hits.push(source);
        assert(hit_views(hits@) =~= hit_views(before).push(view));
        assert(sources_of(all)[i as int] == view);
        assert(sources_of(all).take(i + 1) =~= sources_of(all).take(i as int).push(view));
        i = i + 1;
    }
    assert(sources_of(all).take(i as int) =~= sources_of(all));
    Ok(ScrollPage { scroll_id, hits: Some(hits) })
}

/// What to do about a page.
#[derive(Debug)]
pub enum ScrollAction {
    /// The answer cannot be read on.
    Fail(String),
    /// The scroll is over: release it.
    Finish(String),
    /// Store these documents, then ask for the next page.
    Store(String, Vec<Vec<(String, JsonValue)>>),
}

/// The documents among hits.
pub open spec fn docs_of(hits: Seq<Option<Vec<(String, JsonValue)>>>) -> Seq<
    Seq<(Seq<char>, json::Json)>,
>
    decreases hits.len(),
{
    if hits.len() == 0 {
        seq![]
    } else {
        match hits.last() {
            Some(doc) => docs_of(hits.drop_last()).push(json::members(doc@)),
            None => docs_of(hits.drop_last()),
        }
    }
}

pub open spec fn doc_views(docs: Seq<Vec<(String, JsonValue)>>) -> Seq<
    Seq<(Seq<char>, json::Json)>,
> {
    docs.map_values(|d: Vec<(String, JsonValue)>| json::members(d@))
}

/// What a page asks for: the failure, or the scroll's id and the documents to store, none
/// where the scroll is over.
pub open spec fn page_step(
    scroll_id: Option<Seq<char>>,
    hits: Option<Seq<Option<Vec<(String, JsonValue)>>>>,
) -> Result<(Seq<char>, Option<Seq<Seq<(Seq<char>, json::Json)>>>), Seq<char>> {
    match (scroll_id, hits) {
        (None, _) => Err("ES response missing _scroll_id"@),
        (Some(_), None) => Err("ES response missing hits.hits"@),
        (Some(id), Some(h)) => Ok(
            (
                id,
                if h.len() == 0 {
                    None
                } else {
                    Some(docs_of(h))
                },
            ),
        ),
    }
}

/// The hits of a page, where the answer had a list of them.
pub open spec fn page_hits(page: ScrollPage) -> Option<Seq<Option<Vec<(String, JsonValue)>>>> {
    match page.hits {
        Some(hits) => Some(hits@),
        None => None,
    }
}

/// Decides what to do about a page: a page with no hits ends the scroll.
pub fn next_scroll(page: ScrollPage) -> (r: ScrollAction)
    ensures
        match r {
            ScrollAction::Fail(e) => {
                ||| page.scroll_id is None && e@ == "ES response missing _scroll_id"@
                ||| page.scroll_id is Some && page.hits is None && e@
                    == "ES response missing hits.hits"@
            },
            ScrollAction::Finish(id) => page.scroll_id == Some(id) && page.hits is Some
                && page.hits->0@.len() == 0,
            ScrollAction::Store(id, docs) => page.scroll_id == Some(id) && page.hits is Some
                && page.hits->0@.len() > 0 && doc_views(docs@) == docs_of(page.hits->0@),
        },
        match r {
            ScrollAction::Fail(e) => page_step(opt_view(page.scroll_id), page_hits(page)) matches Err(
                why,
            ) && why == e@,
            ScrollAction::Finish(id) => page_step(opt_view(page.scroll_id), page_hits(page)) matches Ok(
                (i, None),
            ) && i == id@,
            ScrollAction::Store(id, docs) => page_step(opt_view(page.scroll_id), page_hits(page)) matches Ok(
                (i, Some(d)),
            ) && i == id@ && d == doc_views(docs@),
        },
{
    match page.scroll_id {
        None => ScrollAction::Fail("ES response missing _scroll_id".to_string()),
        Some(id) => match page.hits {
            None => ScrollAction::Fail("ES response missing hits.hits".to_string()),
            Some(hits) => {
                if hits.len() == 0 {
                    return ScrollAction::Finish(id);
                }
                let ghost all = hits@;
                let mut docs: Vec<Vec<(String, JsonValue)>> = Vec::new();
                assert(doc_views(docs@) =~= docs_of(all.take(0)));
                for hit in it: hits.into_iter()
                    invariant
                        it.seq() == all,
                        doc_views(docs@) == docs_of(all.take(it.index())),
                {
                    proof {
                        assert(all.take(it.index() + 1).drop_last() =~= all.take(it.index()));
                    }
                    let ghost before = docs@;
                    match hit {
                        Some(doc) => {
                            let ghost d = doc;
                            docs.push(doc);
                            assert(doc_views(docs@) =~= doc_views(before).push(
                                json::members(d@),
                            ));
                        },
                        None => {},
                    }
                }
                assert(all.take(all.len() as int) =~= all);
                ScrollAction::Store(id, docs)
            },
        },
    }
}

/// Whether progress is reported: at every ten thousand records.
pub fn reports_progress(total: usize) -> (r: bool)
    ensures
        r == (total % 10_000 == 0),
{
    total % 10_000 == 0
}

/// A migration that preserves stores the members that are no fields as one JSON object,
/// also where the list of allowed fields does not name `_meta`; a lossy one stores none of
/// them.
pub proof fn law_preserved_members_are_stored(
    doc: Seq<(Seq<char>, json::Json)>,
    allowed: Seq<String>,
    now: i64,
)
    ensures
        unmapped(doc, allowed).len() > 0 ==> migrated(
            doc,
            allowed,
            UnmappedStrategy::Preserve,
            now,
        ).fields == mapped_fields(doc, allowed).insert(
            "_meta"@,
            json::object_text(unmapped(doc, allowed)),
        ),
        unmapped(doc, allowed).len() == 0 ==> migrated(
            doc,
            allowed,
            UnmappedStrategy::Preserve,
            now,
        ).fields == mapped_fields(doc, allowed),
        migrated(doc, allowed, UnmappedStrategy::Lossy, now).fields == mapped_fields(doc, allowed),
{
}

/// With the lossy strategy a record holds only allowed fields; with the other one it holds
/// at most `_meta` besides.
pub proof fn law_fields_are_allowed(
    doc: Seq<(Seq<char>, json::Json)>,
    allowed: Seq<String>,
    strategy: UnmappedStrategy,
    meta: Seq<char>,
    k: Seq<char>,
)
    requires
        doc_all_fields(doc, allowed, strategy, meta).dom().contains(k),
    ensures
        record::is_allowed(allowed, k) || (strategy is Preserve && k == "_meta"@),
{
}

/// What is stored of a document: its time is what the text at `@timestamp` stands for, or
/// its number as milliseconds, and else the clock's; its message is the string at `message`,
/// else the string at `message` inside `log`, else nothing.
pub proof fn law_time_and_message_of_a_document(
    doc: Seq<(Seq<char>, json::Json)>,
    allowed: Seq<String>,
    strategy: UnmappedStrategy,
    now: i64,
    i: int,
)
    requires
        0 <= i < doc.len(),
        forall|j: int, k: int|
            0 <= j < k < doc.len() ==> (#[trigger] doc[j]).0 != (#[trigger] doc[k]).0,
    ensures
        ({
            let r = migrated(doc, allowed, strategy, now);
            let v = doc[i].1;
            let timed = doc[i].0 == "@timestamp"@;
            &&& timed && v.shape is Text && clock::instant_of(v.shape->Text_0) is Some
                ==> r.timestamp_ns == clock::instant_of(v.shape->Text_0)->0
            &&& timed && v.shape is Text && clock::instant_of(v.shape->Text_0) is None
                ==> r.timestamp_ns == now
            &&& timed && v.shape is Number && v.shape->Number_0 is Some && i64::MIN
                <= v.shape->Number_0->0 * 1_000_000 <= i64::MAX ==> r.timestamp_ns
                == v.shape->Number_0->0 * 1_000_000
            &&& timed && !(v.shape is Text) && !(v.shape is Number && v.shape->Number_0 is Some)
                ==> r.timestamp_ns == now
            &&& (forall|j: int| 0 <= j < doc.len() ==> (#[trigger] doc[j]).0 != "@timestamp"@)
                ==> r.timestamp_ns == now
            &&& doc[i].0 == "message"@ && v.shape is Text ==> r.message == v.shape->Text_0
            &&& r.template_id == template::shape_id(template::masked(r.message))
        }),
{
    reveal_strlit("message");
    reveal_strlit("@timestamp");
    assert("message"@.len() == 7);
    assert("@timestamp"@.len() == 10);
    json::law_first_member_is_found(doc, doc[i].0, i);
    if forall|j: int| 0 <= j < doc.len() ==> (#[trigger] doc[j]).0 != "@timestamp"@ {
        json::law_first_member_is_found(doc, "@timestamp"@, -1);
    }
}

/// Where `message` is no string, the message is the string at `message` inside the object
/// at `log`, and nothing where there is none.
pub proof fn law_message_inside_log(
    doc: Seq<(Seq<char>, json::Json)>,
    allowed: Seq<String>,
    strategy: UnmappedStrategy,
    now: i64,
    i: int,
    inner: Seq<(Seq<char>, json::Json)>,
    k: int,
)
    requires
        forall|j: int|
            0 <= j < doc.len() && (#[trigger] doc[j]).0 == "message"@ ==> !(doc[j].1.shape is Text),
    ensures
        0 <= i < doc.len() && doc[i].0 == "log"@ && (forall|j: int|
            0 <= j < i ==> (#[trigger] doc[j]).0 != "log"@) && json::json_object_of(doc[i].1.text)
            == Ok::<Option<Seq<(Seq<char>, json::Json)>>, Seq<char>>(Some(inner)) && 0 <= k
            < inner.len() && inner[k].0 == "message"@ && (forall|j: int|
            0 <= j < k ==> (#[trigger] inner[j]).0 != "message"@) && inner[k].1.shape is Text
            ==> migrated(doc, allowed, strategy, now).message == inner[k].1.shape->Text_0,
        (forall|j: int| 0 <= j < doc.len() ==> (#[trigger] doc[j]).0 != "log"@) ==> migrated(
            doc,
            allowed,
            strategy,
            now,
        ).message.len() == 0,
{
    lemma_no_text(doc, "message"@);
    json::law_first_member_is_found(doc, "log"@, i);
    json::law_first_member_is_found(inner, "message"@, k);
}

proof fn lemma_no_text(doc: Seq<(Seq<char>, json::Json)>, name: Seq<char>)
    requires
        forall|j: int|
            0 <= j < doc.len() && (#[trigger] doc[j]).0 == name ==> !(doc[j].1.shape is Text),
    ensures
        json::as_text(json::member(doc, name)) is None,
    decreases doc.len(),
{
    if doc.len() > 0 && doc[0].0 != name {
        let rest = doc.drop_first();
        assert forall|j: int| 0 <= j < rest.len() && (#[trigger] rest[j]).0 == name implies !(
        rest[j].1.shape is Text) by {
            assert(rest[j] == doc[j + 1]);
        }
        lemma_no_text(rest, name);
    }
}

/// A member whose name is on the list of fields is a field, a string by its contents and any
/// other value by its JSON text. There is no other field, but for `_meta` where the others
/// are preserved: it is a JSON object of every member that is no field, nor the time, nor
/// the message, in their order, and is there only where there is such a member.
pub proof fn law_listed_members_are_fields(
    doc: Seq<(Seq<char>, json::Json)>,
    allowed: Seq<String>,
    strategy: UnmappedStrategy,
    now: i64,
    i: int,
    name: Seq<char>,
)
    requires
        name != "_meta"@,
    ensures
        ({
            let fields = migrated(doc, allowed, strategy, now).fields;
            let listed = exists|j: int| 0 <= j < allowed.len() && (#[trigger] allowed[j])@ == name;
            let first = 0 <= i < doc.len() && doc[i].0 == name && forall|j: int|
                0 <= j < i ==> (#[trigger] doc[j]).0 != name;
            &&& listed && first ==> fields.dom().contains(name)
            &&& listed && first && doc[i].1.shape is Text ==> fields[name]
                == doc[i].1.shape->Text_0
            &&& listed && first && !(doc[i].1.shape is Text) ==> fields[name] == doc[i].1.text
            &&& !listed ==> !fields.dom().contains(name)
            &&& (forall|j: int| 0 <= j < doc.len() ==> (#[trigger] doc[j]).0 != name)
                ==> !fields.dom().contains(name)
        }),
        ({
            let others = doc.filter(
                |e: (Seq<char>, json::Json)|
                    e.0 != "@timestamp"@ && e.0 != "message"@ && !exists|j: int|
                        0 <= j < allowed.len() && (#[trigger] allowed[j])@ == e.0,
            ).map_values(|e: (Seq<char>, json::Json)| (e.0, e.1.text));
            let fields = migrated(doc, allowed, strategy, now).fields;
            &&& strategy is Preserve && others.len() > 0 ==> fields.dom().contains("_meta"@)
                && fields["_meta"@] == json::object_text(others)
            &&& strategy is Lossy || others.len() == 0 ==> (fields.dom().contains("_meta"@) ==> exists|
                j: int,
            | 0 <= j < allowed.len() && (#[trigger] allowed[j])@ == "_meta"@)
        }),
{
    json::law_first_member_is_found(doc, name, i);
    lemma_unmapped_is_filtered(doc, allowed);
}

proof fn lemma_unmapped_is_filtered(doc: Seq<(Seq<char>, json::Json)>, allowed: Seq<String>)
    ensures
        unmapped(doc, allowed) == doc.filter(
            |e: (Seq<char>, json::Json)|
                e.0 != "@timestamp"@ && e.0 != "message"@ && !exists|j: int|
                    0 <= j < allowed.len() && (#[trigger] allowed[j])@ == e.0,
        ).map_values(|e: (Seq<char>, json::Json)| (e.0, e.1.text)),
    decreases doc.len(),
{
    reveal(Seq::filter);
    let keep = |e: (Seq<char>, json::Json)|
        e.0 != "@timestamp"@ && e.0 != "message"@ && !exists|j: int|
            0 <= j < allowed.len() && (#[trigger] allowed[j])@ == e.0;
    let pair = |e: (Seq<char>, json::Json)| (e.0, e.1.text);
    if doc.len() == 0 {
        assert(doc.filter(keep).map_values(pair) =~= seq![]);
    } else {
        let rest = doc.drop_last();
        lemma_unmapped_is_filtered(rest, allowed);
        let e = doc.last();
        assert(is_unmapped(allowed, e.0) <==> keep(e));
        if keep(e) {
            assert(rest.filter(keep).push(e).map_values(pair) =~= rest.filter(keep).map_values(
                pair,
            ).push(pair(e)));
        }
    }
}

/// The two strategies by their names, and no other; an index name is refused exactly where
/// it has a slash of either kind, a question mark, a number sign, an ampersand or a space.
pub proof fn law_strategies_and_index_names(s: Seq<char>)
    ensures
        strategy_of(s) == Ok::<UnmappedStrategy, Seq<char>>(UnmappedStrategy::Lossy) <==> s == seq![
            'l',
            'o',
            's',
            's',
            'y',
        ],
        strategy_of(s) == Ok::<UnmappedStrategy, Seq<char>>(UnmappedStrategy::Preserve) <==> s
            == seq!['p', 'r', 'e', 's', 'e', 'r', 'v', 'e'],
        is_safe_index(s) <==> !s.contains('/') && !s.contains('?') && !s.contains('#')
            && !s.contains('&') && !s.contains(' ') && !s.contains('\\'),
{
    reveal_strlit("lossy");
    reveal_strlit("preserve");
    assert("lossy"@ =~= seq!['l', 'o', 's', 's', 'y']);
    assert("preserve"@ =~= seq!['p', 'r', 'e', 's', 'e', 'r', 'v', 'e']);
    assert("lossy"@.len() == 5);
    assert("preserve"@.len() == 8);
    if !is_safe_index(s) {
        let i = choose|i: int| 0 <= i < s.len() && is_unsafe(#[trigger] s[i]);
        assert(s.contains(s[i]));
    } else {
        assert forall|c: char| is_unsafe(c) implies !(#[trigger] s.contains(c)) by {
            if s.contains(c) {
                let i = choose|i: int| 0 <= i < s.len() && s[i] == c;
                assert(!is_unsafe(s[i]));
            }
        }
        assert(is_unsafe('/') && is_unsafe('?') && is_unsafe('#') && is_unsafe('&') && is_unsafe(' ')
            && is_unsafe('\\'));
    }
}

/// A flag that is known, with a value that can be read.
pub open spec fn is_flag(flag: Seq<char>, value: Seq<char>) -> bool {
    flag == "--from"@ || flag == "--url"@ || flag == "--index"@ || (flag == "--unmapped"@ && (value
        == "lossy"@ || value == "preserve"@))
}

/// Flags and values alternate, and of a flag that is given more than once the last value
/// counts. The source has to be Elasticsearch, and a URL and an index have to be given; what
/// is not mapped is lost unless it is to be preserved.
pub proof fn law_last_flag_counts(args: Seq<Seq<char>>, k: int)
    requires
        args.len() % 2 == 0,
        forall|j: int|
            0 <= j < args.len() && j % 2 == 0 ==> is_flag(#[trigger] args[j], args[j + 1]),
    ensures
        read_flags(args, 0, no_options()) is Ok,
        ({
            let o = read_flags(args, 0, no_options())->Ok_0;
            let last = 0 <= k < args.len() && k % 2 == 0 && forall|j: int|
                k < j < args.len() && j % 2 == 0 ==> #[trigger] args[j] != args[k];
            &&& last && args[k] == "--from"@ ==> o.from == Some(args[k + 1])
            &&& last && args[k] == "--url"@ ==> o.url == Some(args[k + 1])
            &&& last && args[k] == "--index"@ ==> o.index == Some(args[k + 1])
            &&& last && args[k] == "--unmapped"@ ==> (o.unmapped is Lossy <==> args[k + 1]
                == "lossy"@)
            &&& (forall|j: int|
                0 <= j < args.len() && j % 2 == 0 ==> #[trigger] args[j] != "--from"@)
                ==> o.from is None
            &&& (forall|j: int|
                0 <= j < args.len() && j % 2 == 0 ==> #[trigger] args[j] != "--url"@)
                ==> o.url is None
            &&& (forall|j: int|
                0 <= j < args.len() && j % 2 == 0 ==> #[trigger] args[j] != "--index"@)
                ==> o.index is None
            &&& (forall|j: int|
                0 <= j < args.len() && j % 2 == 0 ==> #[trigger] args[j] != "--unmapped"@)
                ==> o.unmapped is Lossy
            &&& options_of(args) is Ok <==> o.from == Some("elasticsearch"@) && o.url is Some
                && o.index is Some
            &&& options_of(args) is Ok ==> options_of(args)->Ok_0 == (
                o.url->0,
                o.index->0,
                o.unmapped,
            )
            &&& o.from is None ==> options_of(args)->Err_0 == "missing --from"@
            &&& o.from == Some("elasticsearch"@) && o.url is None ==> options_of(args)->Err_0
                == "missing --url"@
            &&& o.from == Some("elasticsearch"@) && o.url is Some && o.index is None ==> options_of(
                args,
            )->Err_0 == "missing --index"@
        }),
{
    lemma_flags(args, 0, no_options(), k);
}

proof fn lemma_flags(args: Seq<Seq<char>>, i: int, o: Options, k: int)
    requires
        args.len() % 2 == 0,
        0 <= i,
        i % 2 == 0,
        forall|j: int|
            0 <= j < args.len() && j % 2 == 0 ==> is_flag(#[trigger] args[j], args[j + 1]),
    ensures
        read_flags(args, i, o) is Ok,
        ({
            let r = read_flags(args, i, o)->Ok_0;
            let last = i <= k < args.len() && k % 2 == 0 && forall|j: int|
                k < j < args.len() && j % 2 == 0 ==> #[trigger] args[j] != args[k];
            &&& last && args[k] == "--from"@ ==> r.from == Some(args[k + 1])
            &&& last && args[k] == "--url"@ ==> r.url == Some(args[k + 1])
            &&& last && args[k] == "--index"@ ==> r.index == Some(args[k + 1])
            &&& last && args[k] == "--unmapped"@ ==> (r.unmapped is Lossy <==> args[k + 1]
                == "lossy"@)
            &&& (forall|j: int|
                i <= j < args.len() && j % 2 == 0 ==> #[trigger] args[j] != "--from"@) ==> r.from
                == o.from
            &&& (forall|j: int|
                i <= j < args.len() && j % 2 == 0 ==> #[trigger] args[j] != "--url"@) ==> r.url
                == o.url
            &&& (forall|j: int|
                i <= j < args.len() && j % 2 == 0 ==> #[trigger] args[j] != "--index"@) ==> r.index
                == o.index
            &&& (forall|j: int|
                i <= j < args.len() && j % 2 == 0 ==> #[trigger] args[j] != "--unmapped"@)
                ==> r.unmapped == o.unmapped
        }),
    decreases args.len() - i,
{
    reveal_strlit("--from");
    reveal_strlit("--url");
    reveal_strlit("--index");
    reveal_strlit("--unmapped");
    reveal_strlit("lossy");
    reveal_strlit("preserve");
    assert("--from"@.len() == 6);
    assert("--url"@.len() == 5);
    assert("--index"@.len() == 7);
    assert("--unmapped"@.len() == 10);
    assert("lossy"@.len() == 5);
    assert("preserve"@.len() == 8);
    if i < args.len() {
        assert(i + 1 < args.len());
        assert(is_flag(args[i], args[i + 1]));
        let next = if args[i] == "--from"@ {
            Options { from: Some(args[i + 1]), ..o }
        } else if args[i] == "--url"@ {
            Options { url: Some(args[i + 1]), ..o }
        } else if args[i] == "--index"@ {
            Options { index: Some(args[i + 1]), ..o }
        } else {
            Options {
                unmapped: if args[i + 1] == "lossy"@ {
                    UnmappedStrategy::Lossy
                } else {
                    UnmappedStrategy::Preserve
                },
                ..o
            }
        };
        assert(read_flags(args, i, o) == read_flags(args, i + 2, next));
        lemma_flags(args, i + 2, next, k);
    }
}

/// The first flag that is not known, behind flags that are, refuses the options and is
/// named.
pub proof fn law_unknown_flags_are_refused(args: Seq<Seq<char>>, p: int, i: int, o: Options)
    requires
        0 <= i <= p < args.len(),
        p % 2 == 0,
        i % 2 == 0,
        forall|j: int| 0 <= j < p && j % 2 == 0 ==> is_flag(#[trigger] args[j], args[j + 1]),
        args[p] != "--from"@ && args[p] != "--url"@ && args[p] != "--index"@ && args[p]
            != "--unmapped"@,
    ensures
        read_flags(args, i, o) == Err::<Options, Seq<char>>("unknown migrate flag: "@ + args[p]),
        i == 0 && o == no_options() ==> options_of(args) == Err::<
            (Seq<char>, Seq<char>, UnmappedStrategy),
            Seq<char>,
        >("unknown migrate flag: "@ + args[p]),
    decreases p - i,
{
    reveal_strlit("--from");
    reveal_strlit("--url");
    reveal_strlit("--index");
    reveal_strlit("--unmapped");
    assert("--from"@.len() == 6);
    assert("--url"@.len() == 5);
    assert("--index"@.len() == 7);
    assert("--unmapped"@.len() == 10);
    if i < p {
        assert(is_flag(args[i], args[i + 1]));
        if args[i] == "--from"@ {
            law_unknown_flags_are_refused(
                args,
                p,
                i + 2,
                Options { from: Some(args[i + 1]), ..o },
            );
        } else if args[i] == "--url"@ {
            law_unknown_flags_are_refused(args, p, i + 2, Options { url: Some(args[i + 1]), ..o });
        } else if args[i] == "--index"@ {
            law_unknown_flags_are_refused(
                args,
                p,
                i + 2,
                Options { index: Some(args[i + 1]), ..o },
            );
        } else {
            reveal_strlit("lossy");
            reveal_strlit("preserve");
            assert("lossy"@.len() == 5);
            assert("preserve"@.len() == 8);
            law_unknown_flags_are_refused(
                args,
                p,
                i + 2,
                Options {
                    unmapped: if args[i + 1] == "lossy"@ {
                        UnmappedStrategy::Lossy
                    } else {
                        UnmappedStrategy::Preserve
                    },
                    ..o
                },
            );
        }
    }
}

/// A page holds the scroll's id and, in their order, the sources of the hits that stand
/// under `hits` inside `hits`; what is stored of it is every source that is an object.
pub proof fn law_pages_hold_their_hits(
    answer: Seq<(Seq<char>, json::Json)>,
    i: int,
    outer: Seq<(Seq<char>, json::Json)>,
    k: int,
    hits: Seq<Option<Vec<(String, JsonValue)>>>,
)
    ensures
        0 <= i < answer.len() && answer[i].0 == "_scroll_id"@ && (forall|j: int|
            0 <= j < i ==> (#[trigger] answer[j]).0 != "_scroll_id"@) && answer[i].1.shape is Text
            ==> page_of(Some(answer)).scroll_id == Some(answer[i].1.shape->Text_0),
        (forall|j: int| 0 <= j < answer.len() ==> (#[trigger] answer[j]).0 != "_scroll_id"@)
            ==> page_of(Some(answer)).scroll_id is None,
        0 <= i < answer.len() && answer[i].0 == "hits"@ && (forall|j: int|
            0 <= j < i ==> (#[trigger] answer[j]).0 != "hits"@) && json::json_object_of(
            answer[i].1.text,
        ) == Ok::<Option<Seq<(Seq<char>, json::Json)>>, Seq<char>>(Some(outer)) && 0 <= k
            < outer.len() && outer[k].0 == "hits"@ && (forall|j: int|
            0 <= j < k ==> (#[trigger] outer[j]).0 != "hits"@) && json::json_array_of(
            outer[k].1.text,
        ) is Some ==> ({
            let list = json::json_array_of(outer[k].1.text)->0;
            &&& page_of(Some(answer)).hits is Some
            &&& page_of(Some(answer)).hits->0.len() == list.len()
            &&& forall|j: int|
                0 <= j < list.len() ==> #[trigger] page_of(Some(answer)).hits->0[j] == source_of(
                    list[j],
                )
        }),
        docs_of(hits) == hits.filter(|h: Option<Vec<(String, JsonValue)>>| h is Some).map_values(
            |h: Option<Vec<(String, JsonValue)>>| json::members(h->0@),
        ),
{
    json::law_first_member_is_found(answer, "_scroll_id"@, i);
    json::law_first_member_is_found(answer, "hits"@, i);
    json::law_first_member_is_found(outer, "hits"@, k);
    lemma_docs_are_filtered(hits);
}

/// The source of a hit is the object at `_source`, and nothing where there is none.
pub proof fn law_source_of_a_hit(
    hit: json::Json,
    doc: Seq<(Seq<char>, json::Json)>,
    i: int,
    source: Seq<(Seq<char>, json::Json)>,
)
    requires
        json::json_object_of(hit.text) == Ok::<Option<Seq<(Seq<char>, json::Json)>>, Seq<char>>(
            Some(doc),
        ),
    ensures
        0 <= i < doc.len() && doc[i].0 == "_source"@ && (forall|j: int|
            0 <= j < i ==> (#[trigger] doc[j]).0 != "_source"@) && json::json_object_of(
            doc[i].1.text,
        ) == Ok::<Option<Seq<(Seq<char>, json::Json)>>, Seq<char>>(Some(source)) ==> source_of(hit)
            == Some(source),
        (forall|j: int| 0 <= j < doc.len() ==> (#[trigger] doc[j]).0 != "_source"@) ==> source_of(
            hit,
        ) is None,
{
    json::law_first_member_is_found(doc, "_source"@, i);
}

proof fn lemma_docs_are_filtered(hits: Seq<Option<Vec<(String, JsonValue)>>>)
    ensures
        docs_of(hits) == hits.filter(|h: Option<Vec<(String, JsonValue)>>| h is Some).map_values(
            |h: Option<Vec<(String, JsonValue)>>| json::members(h->0@),
        ),
    decreases hits.len(),
{
    reveal(Seq::filter);
    let keep = |h: Option<Vec<(String, JsonValue)>>| h is Some;
    let doc = |h: Option<Vec<(String, JsonValue)>>| json::members(h->0@);
    if hits.len() == 0 {
        assert(hits.filter(keep).map_values(doc) =~= seq![]);
    } else {
        let rest = hits.drop_last();
        lemma_docs_are_filtered(rest);
        let h = hits.last();
        if keep(h) {
            assert(rest.filter(keep).push(h).map_values(doc) =~= rest.filter(keep).map_values(
                doc,
            ).push(doc(h)));
        }
    }
}

/// What is refused is named: the strategy that is not known, the index name that would leave
/// its place, the source that cannot be read.
pub proof fn law_migration_refusals_in_words(s: Seq<char>, o: Options)
    ensures
        s != "lossy"@ && s != "preserve"@ ==> strategy_of(s) == Err::<UnmappedStrategy, Seq<char>>(
            "unknown --unmapped value: "@ + text::debug_text(s)
                + "; use 'lossy' or 'preserve'"@,
        ),
        index_error(s) == "invalid --index "@ + text::debug_text(s)
            + ": must not contain '/', '?', '#', '&', '\\\\', or spaces"@,
        o.from == Some(s) && s != "elasticsearch"@ ==> checked_options(o) == Err::<
            (Seq<char>, Seq<char>, UnmappedStrategy),
            Seq<char>,
        >(
            "--from "@ + text::debug_text(s)
                + " not supported; only 'elasticsearch' is available"@,
        ),
{
}

/// The contents of a page are its own: its id, and the sources of its hits in their order.
pub proof fn law_pages_are_taken_as_they_are(page: ScrollPage, i: int)
    ensures
        page@.scroll_id is Some <==> page.scroll_id is Some,
        page.scroll_id is Some ==> page@.scroll_id->0 == page.scroll_id->0@,
        page@.hits is Some <==> page.hits is Some,
        page.hits is Some ==> page@.hits->0.len() == page.hits->0@.len(),
        page.hits is Some && 0 <= i < page.hits->0@.len() ==> (page@.hits->0[i] is Some
            <==> page.hits->0@[i] is Some),
        page.hits is Some && 0 <= i < page.hits->0@.len() && page.hits->0@[i] is Some
            ==> page@.hits->0[i]->0 == json::members(page.hits->0@[i]->0@),
{
}

/// A page without an id or without a list of hits cannot be read on. A page of no hits ends
/// the scroll; from any other every hit that has a source is stored, in order, and the
/// scroll goes on under the page's own id.
pub proof fn law_pages_are_stored_until_one_is_empty(
    id: Seq<char>,
    hits: Seq<Option<Vec<(String, JsonValue)>>>,
    none: Option<Seq<Option<Vec<(String, JsonValue)>>>>,
)
    ensures
        page_step(None, none) is Err,
        page_step(Some(id), None) is Err,
        page_step(Some(id), Some(hits)) is Ok,
        (page_step(Some(id), Some(hits))->Ok_0).0 == id,
        (page_step(Some(id), Some(hits))->Ok_0).1 is None <==> hits.len() == 0,
        hits.len() > 0 ==> (page_step(Some(id), Some(hits))->Ok_0).1 == Some(
            hits.filter(|h: Option<Vec<(String, JsonValue)>>| h is Some).map_values(
                |h: Option<Vec<(String, JsonValue)>>| json::members(h->0@),
            ),
        ),
{
    lemma_docs_are_filtered(hits);
}

} // verus!
