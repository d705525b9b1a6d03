//! Elasticsearch `_bulk` bodies: action lines, each followed by a document line unless it
//! deletes.

use vstd::prelude::*;

use crate::clock;
use crate::clock::parse_instant;
use crate::json;
use crate::json::{find_member, find_text, json_object, render_members, JsonShape, JsonValue};
use crate::listener::Refused;
use crate::record;
use crate::record::PendingRecord;
use crate::strmap::FieldMap;
use crate::text;
use crate::text::{concat, from_utf8, lines, same_text, trim};

verus! {

/// The member gives a record's message or time, not a field.
pub open spec fn is_reserved(name: Seq<char>) -> bool {
    name == "message"@ || name == "msg"@ || name == "@timestamp"@
}

/// The text of a scalar; nothing for `null`, arrays and objects.
pub open spec fn scalar_text(v: json::Json) -> Option<Seq<char>> {
    match v.shape {
        json::Shape::Text(s) => Some(s),
        json::Shape::Number(_) => Some(v.text),
        json::Shape::Bool(_) => Some(v.text),
        _ => None,
    }
}

/// The fields of a document: its scalar members, but for the reserved ones.
pub open spec fn doc_fields(doc: Seq<(Seq<char>, json::Json)>) -> Map<Seq<char>, Seq<char>>
    decreases doc.len(),
{
    if doc.len() == 0 {
        Map::empty()
    } else {
        let fields = doc_fields(doc.drop_last());
        let (name, value) = doc.last();
        if is_reserved(name) {
            fields
        } else {
            match scalar_text(value) {
                Some(s) => fields.insert(name, s),
                None => fields,
            }
        }
    }
}

/// The message member of a document: `message`, else `msg`.
pub open spec fn message_member(doc: Seq<(Seq<char>, json::Json)>) -> Option<json::Json> {
    match json::member(doc, "message"@) {
        Some(v) => Some(v),
        None => json::member(doc, "msg"@),
    }
}

/// The record of a document. Where the message member is no string, the message is
/// `rendered`, the whole document; `instant` is what its timestamp text stands for.
pub open spec fn record_with(
    doc: Seq<(Seq<char>, json::Json)>,
    instant: Option<i64>,
    rendered: Seq<char>,
) -> record::Pending {
    record::Pending {
        timestamp_ns: instant,
        message: match json::as_text(message_member(doc)) {
            Some(s) => s,
            None => rendered,
        },
        fields: doc_fields(doc),
    }
}

/// The instant of a document: what its `@timestamp` text stands for.
pub open spec fn doc_instant(doc: Seq<(Seq<char>, json::Json)>) -> Option<i64> {
    match json::as_text(json::member(doc, "@timestamp"@)) {
        Some(s) => clock::instant_of(s),
        None => None,
    }
}

/// The record of a document.
pub open spec fn record_of_doc(doc: Seq<(Seq<char>, json::Json)>) -> record::Pending {
    record_with(doc, doc_instant(doc), json::object_text(json::member_texts(doc)))
}

fn fields_of_doc(doc: &Vec<(String, JsonValue)>) -> (r: FieldMap)
    ensures
        r.texts() == doc_fields(json::members(doc@)),
{
    let ghost all = json::members(doc@);
    let mut fields: FieldMap = FieldMap::empty();
    let mut i: usize = 0;
    while i < doc.len()
        invariant
            i <= doc@.len(),
            all == json::members(doc@),
            fields.texts() == doc_fields(all.take(i as int)),
        decreases doc.len() - i,
    {
        assert(all.take(i + 1).drop_last() =~= all.take(i as int));
        assert(all.take(i + 1).last() == (doc@[i as int].0@, doc@[i as int].1@));
        let name: &str = doc[i].0.as_str();
        if !(same_text(name, "message") || same_text(name, "msg") || same_text(name, "@timestamp")) {
            let value: &JsonValue = &doc[i].1;
            match &value.shape {
                JsonShape::Text(s) => fields.put(name, s.as_str()),
                JsonShape::Number(_) => fields.put(name, value.text.as_str()),
                JsonShape::Bool(_) => fields.put(name, value.text.as_str()),
                _ => {},
            }
        }
        i = i + 1;
    }
    assert(all.take(i as int) =~= all);
    fields
}

/// Builds the record of a document out of what its timestamp stands for and its text as a
/// whole.
pub fn record_from_parts(
    doc: &Vec<(String, JsonValue)>,
    instant: Option<i64>,
    rendered: String,
) -> (r: PendingRecord)
    ensures
        r@ == record_with(json::members(doc@), instant, rendered@),
{
    let fields: FieldMap = fields_of_doc(doc);
    let text: Option<&str> = match find_member(doc, "message") {
        Some(_) => find_text(doc, "message"),
        None => find_text(doc, "msg"),
    };
    let message: String = match text {
        Some(s) => s.to_string(),
        None => rendered,
    };
    PendingRecord { timestamp_ns: instant, message, fields }
}

/// Builds the record of a document, leaving its time open where it gives none.
pub fn wire_record_from_doc(doc: &Vec<(String, JsonValue)>) -> (r: PendingRecord)
    ensures
        r@ == record_of_doc(json::members(doc@)),
{
    let instant: Option<i64> = match find_text(doc, "@timestamp") {
        Some(s) => parse_instant(s),
        None => None,
    };
    let rendered: String = render_members(doc);
    record_from_parts(doc, instant, rendered)
}

/// What one action of a bulk body asks for.
#[derive(Debug)]
pub enum BulkStep {
    /// A deletion: nothing to store.
    Delete,
    /// A document to store.
    Store(Vec<(String, JsonValue)>),
}

/// The contents of a `BulkStep`.
pub enum Step {
    Delete,
    Store(Seq<(Seq<char>, json::Json)>),
}

impl View for BulkStep {
    type V = Step;

    open spec fn view(&self) -> Step {
        match self {
            BulkStep::Delete => Step::Delete,
            BulkStep::Store(doc) => Step::Store(json::members(doc@)),
        }
    }
}

/// What a line does to the reading of a body: which step it completes, and whether a
/// document has to follow.
pub enum LineResult {
    /// The line was an action; its document follows.
    Awaits,
    /// The line completes a step.
    Completes(BulkStep),
    /// The body is refused.
    Refuses(String),
}

/// What a line does: `awaiting` tells whether it has to be a document.
pub open spec fn line_effect(
    awaiting: bool,
    parsed: Result<Option<Seq<(Seq<char>, json::Json)>>, Seq<char>>,
) -> Result<Option<Step>, Seq<char>> {
    if awaiting {
        match parsed {
            Err(e) => Err("invalid document line: "@ + e),
            Ok(None) => Err("document line must be a JSON object"@),
            Ok(Some(doc)) => Ok(Some(Step::Store(doc))),
        }
    } else {
        match parsed {
            Err(e) => Err("invalid action line: "@ + e),
            Ok(None) => Err("action line must be a JSON object"@),
            Ok(Some(action)) => if json::member(action, "delete"@) is Some {
                Ok(Some(Step::Delete))
            } else {
                Ok(None)
            },
        }
    }
}

/// Reads one line that was parsed.
pub fn read_line(
    awaiting: bool,
    parsed: Result<Option<Vec<(String, JsonValue)>>, String>,
) -> (r: LineResult)
    ensures
        match r {
            LineResult::Awaits => line_effect(awaiting, json::parsed_view(parsed)) == Ok::<
                Option<Step>,
                Seq<char>,
            >(None),
            LineResult::Completes(step) => line_effect(awaiting, json::parsed_view(parsed)) == Ok::<
                Option<Step>,
                Seq<char>,
            >(Some(step@)),
            LineResult::Refuses(e) => line_effect(awaiting, json::parsed_view(parsed)) == Err::<
                Option<Step>,
                Seq<char>,
            >(e@),
        },
{
    match parsed {
        Err(e) => {
            if awaiting {
                LineResult::Refuses(concat("invalid document line: ", e.as_str()))
            } else {
                LineResult::Refuses(concat("invalid action line: ", e.as_str()))
            }
        },
        Ok(None) => {
            if awaiting {
                LineResult::Refuses("document line must be a JSON object".to_string())
            } else {
                LineResult::Refuses("action line must be a JSON object".to_string())
            }
        },
        Ok(Some(doc)) => {
            if awaiting {
                LineResult::Completes(BulkStep::Store(doc))
            } else {
                match find_member(&doc, "delete") {
                    Some(_) => LineResult::Completes(BulkStep::Delete),
                    None => LineResult::Awaits,
                }
            }
        },
    }
}

/// The steps of a body, and why it is refused after them, if it is.
#[derive(Debug)]
pub struct BulkPlan {
    pub steps: Vec<BulkStep>,
    pub error: Option<String>,
}

/// The lines that count: those that are not blank.
pub open spec fn filled(s: Seq<Seq<char>>) -> Seq<Seq<char>>
    decreases s.len(),
{
    if s.len() == 0 {
        seq![]
    } else if text::trimmed(s.last()).len() == 0 {
        filled(s.drop_last())
    } else {
        filled(s.drop_last()).push(s.last())
    }
}

/// What was read of the first lines: the steps, whether a document has to follow, and why
/// the body is refused.
pub struct Progress {
    pub steps: Seq<Step>,
    pub awaiting: bool,
    pub error: Option<Seq<char>>,
}

/// What is read of some lines.
pub open spec fn progress(lines: Seq<Seq<char>>) -> Progress
    decreases lines.len(),
{
    if lines.len() == 0 {
        Progress { steps: seq![], awaiting: false, error: None }
    } else {
        let before = progress(lines.drop_last());
        if before.error is Some {
            before
        } else {
            match line_effect(before.awaiting, json::json_object_of(lines.last())) {
                Err(e) => Progress { error: Some(e), ..before },
                Ok(None) => Progress { awaiting: true, ..before },
                Ok(Some(step)) => Progress {
                    steps: before.steps.push(step),
                    awaiting: false,
                    error: None,
                },
            }
        }
    }
}

/// The steps of a body, and why it is refused after them, if it is: a bad line, or an
/// action at its end with no document.
pub open spec fn plan_of(body: Seq<char>) -> (Seq<Step>, Option<Seq<char>>) {
    let p = progress(filled(text::text_lines(body)));
    (
        p.steps,
        if p.error is Some {
            p.error
        } else if p.awaiting {
            Some("action line with no following document line"@)
        } else {
            None
        },
    )
}

pub open spec fn steps_of(steps: Seq<BulkStep>) -> Seq<Step> {
    steps.map_values(|s: BulkStep| s@)
}

proof fn lemma_error_stays(lines: Seq<Seq<char>>, i: int)
    requires
        0 <= i <= lines.len(),
        progress(lines.take(i)).error is Some,
    ensures
        progress(lines) == progress(lines.take(i)),
    decreases lines.len() - i,
{
    if i == lines.len() {
        assert(lines.take(i) =~= lines);
    } else {
        assert(lines.take(i + 1).drop_last() =~= lines.take(i));
        lemma_error_stays(lines, i + 1);
    }
}

fn filled_lines<'a>(body: &'a str) -> (r: Vec<&'a str>)
    ensures
        text::views(r@) == filled(text::text_lines(body@)),
{
    let all: Vec<&'a str> = lines(body);
    let ghost views = text::views(all@);
    let mut out: Vec<&'a str> = Vec::new();
    let mut i: usize = 0;
    while i < all.len()
        invariant
            i <= all@.len(),
            views == text::views(all@),
            text::views(out@) == filled(views.take(i as int)),
        decreases all.len() - i,
    {
        let line: &'a str = all[i];
        assert(views[i as int] == line@);
        assert(views.take(i + 1).drop_last() =~= views.take(i as int));
        let ghost before = out@;
        if trim(line).unicode_len() > 0 {
            out.push(line);
            assert(text::views(out@) =~= text::views(before).push(line@));
        }
        i = i + 1;
    }
    assert(views.take(i as int) =~= views);
    out
}

/// Reads a bulk body. The steps before a bad line stand: each is carried out before the
/// body is refused.
pub fn plan_bulk(body: &str) -> (r: BulkPlan)
    ensures
        plan_of(body@).0 == steps_of(r.steps@),
        match r.error {
            Some(e) => plan_of(body@).1 == Some(e@),
            None => plan_of(body@).1 is None,
        },
{
    let all: Vec<&str> = filled_lines(body);
    let ghost views = text::views(all@);
    let mut steps: Vec<BulkStep> = Vec::new();
    let mut awaiting: bool = false;
    let mut i: usize = 0;
    assert(steps_of(steps@) =~= Seq::<Step>::empty());
    while i < all.len()
        invariant
            i <= all@.len(),
            views == text::views(all@),
            views == filled(text::text_lines(body@)),
            progress(views.take(i as int)) == (Progress {
                steps: steps_of(steps@),
                awaiting,
                error: None,
            }),
        decreases all.len() - i,
    {
        let line: &str = all[i];
        assert(views[i as int] == line@);
        assert(views.take(i + 1).drop_last() =~= views.take(i as int));
        let parsed: Result<Option<Vec<(String, JsonValue)>>, String> = json_object(line);
        match read_line(awaiting, parsed) {
            LineResult::Awaits => {
                awaiting = true;
            },
            LineResult::Completes(step) => {
                let ghost before = steps@;
                let ghost done = step@;
                steps.push(step);
                assert(steps_of(steps@) =~= steps_of(before).push(done));
                awaiting = false;
            },
            LineResult::Refuses(e) => {
                proof {
                    lemma_error_stays(views, i + 1);
                }
                return BulkPlan { steps, error: Some(e) };
            },
        }
        i = i + 1;
    }
    assert(views.take(i as int) =~= views);
    if awaiting {
        BulkPlan {
            steps,
            error: Some("action line with no following document line".to_string()),
        }
    } else {
        BulkPlan { steps, error: None }
    }
}

/// Reads a bulk body out of its bytes. Bytes that are no text are a bad request.
pub fn plan_body(body: Vec<u8>) -> (r: Result<BulkPlan, Refused>)
    ensures
        match r {
            Ok(plan) => vstd::utf8::valid_utf8(body@) && plan_of(vstd::utf8::decode_utf8(body@)).0
                == steps_of(plan.steps@) && plan_of(vstd::utf8::decode_utf8(body@)).1 == (
            match plan.error {
                Some(e) => Some(e@),
                None => None,
            }),
            Err(e) => !vstd::utf8::valid_utf8(body@) && e.status == 400 && e.message@
                == "body is not valid UTF-8"@,
        },
{
    match from_utf8(body) {
        Some(text) => {
            proof {
                vstd::utf8::encode_utf8_decode_utf8(text@);
            }
            Ok(plan_bulk(text.as_str()))
        },
        None => Err(Refused { status: 400, message: "body is not valid UTF-8".to_string() }),
    }
}

/// The status that a step is answered with.
pub fn step_status(step: &BulkStep) -> (r: u16)
    ensures
        r == if step is Delete {
            200
        } else {
            201int
        },
{
    match step {
        BulkStep::Delete => 200,
        BulkStep::Store(_) => 201,
    }
}

/// A document's reserved members never become fields, and neither do members that are no
/// scalars.
pub proof fn law_only_scalars_become_fields(doc: Seq<(Seq<char>, json::Json)>, k: Seq<char>)
    ensures
        doc_fields(doc).dom().contains(k) ==> !is_reserved(k) && exists|i: int|
            0 <= i < doc.len() && (#[trigger] doc[i]).0 == k && scalar_text(doc[i].1) == Some(
                doc_fields(doc)[k],
            ),
    decreases doc.len(),
{
    if doc.len() > 0 {
        let rest = doc.drop_last();
        law_only_scalars_become_fields(rest, k);
        let (name, value) = doc.last();
        if doc_fields(doc).dom().contains(k) {
            if k == name && !is_reserved(name) && scalar_text(value) is Some {
                assert(doc[doc.len() - 1].0 == k);
            } else {
                let i = choose|i: int|
                    0 <= i < rest.len() && (#[trigger] rest[i]).0 == k && scalar_text(rest[i].1)
                        == Some(doc_fields(rest)[k]);
                assert(doc[i] == rest[i]);
            }
        }
    }
}

/// Every member of a document that is not reserved and is a string, a boolean or any number,
/// whole or not, is a field of the record, and the last one of its name wins: a string by
/// its contents, a number or a boolean by its JSON text. There is no other field.
pub proof fn law_strings_numbers_and_booleans_become_fields(
    doc: Seq<(Seq<char>, json::Json)>,
    instant: Option<i64>,
    rendered: Seq<char>,
    name: Seq<char>,
    i: int,
)
    ensures
        ({
            let fields = record_with(doc, instant, rendered).fields;
            let reserved = name == "message"@ || name == "msg"@ || name == "@timestamp"@;
            let last = 0 <= i < doc.len() && doc[i].0 == name && forall|j: int|
                i < j < doc.len() && (#[trigger] doc[j]).0 == name ==> doc[j].1.shape is Null
                    || doc[j].1.shape is Array || doc[j].1.shape is Object;
            &&& reserved ==> !fields.dom().contains(name)
            &&& !reserved && last && doc[i].1.shape is Text ==> fields.dom().contains(name)
                && fields[name] == doc[i].1.shape->Text_0
            &&& !reserved && last && doc[i].1.shape is Number ==> fields.dom().contains(name)
                && fields[name] == doc[i].1.text
            &&& !reserved && last && doc[i].1.shape is Bool ==> fields.dom().contains(name)
                && fields[name] == doc[i].1.text
            &&& (forall|j: int|
                0 <= j < doc.len() && (#[trigger] doc[j]).0 == name ==> doc[j].1.shape is Null
                    || doc[j].1.shape is Array || doc[j].1.shape is Object)
                ==> !fields.dom().contains(name)
        }),
{
    lemma_last_scalar_wins(doc, name, i);
}

proof fn lemma_last_scalar_wins(doc: Seq<(Seq<char>, json::Json)>, name: Seq<char>, i: int)
    ensures
        is_reserved(name) ==> !doc_fields(doc).dom().contains(name),
        !is_reserved(name) && 0 <= i < doc.len() && doc[i].0 == name && scalar_text(doc[i].1)
            is Some && (forall|j: int|
            i < j < doc.len() && (#[trigger] doc[j]).0 == name ==> scalar_text(doc[j].1) is None)
            ==> doc_fields(doc).dom().contains(name) && doc_fields(doc)[name] == scalar_text(
            doc[i].1,
        )->0,
        (forall|j: int|
            0 <= j < doc.len() && (#[trigger] doc[j]).0 == name ==> scalar_text(doc[j].1) is None)
            ==> !doc_fields(doc).dom().contains(name),
    decreases doc.len(),
{
    if doc.len() > 0 {
        let rest = doc.drop_last();
        assert(forall|j: int| 0 <= j < rest.len() ==> rest[j] == doc[j]);
        assert(doc.last() == doc[doc.len() - 1]);
        lemma_last_scalar_wins(rest, name, i);
    }
}

/// The message is the string at `message`; where there is no such member, that at `msg`;
/// and where the member is no string, or there is neither, the document as a whole. The
/// time is what the string at `@timestamp` stands for, if it is one.
pub proof fn law_message_and_time_of_a_document(doc: Seq<(Seq<char>, json::Json)>, i: int)
    requires
        0 <= i < doc.len(),
        forall|j: int, k: int|
            0 <= j < k < doc.len() ==> (#[trigger] doc[j]).0 != (#[trigger] doc[k]).0,
    ensures
        doc[i].0 == "message"@ && doc[i].1.shape is Text ==> record_of_doc(doc).message
            == doc[i].1.shape->Text_0,
        doc[i].0 == "msg"@ && doc[i].1.shape is Text && (forall|j: int|
            0 <= j < doc.len() ==> (#[trigger] doc[j]).0 != "message"@) ==> record_of_doc(
            doc,
        ).message == doc[i].1.shape->Text_0,
        doc[i].0 == "message"@ && !(doc[i].1.shape is Text) ==> record_of_doc(doc).message
            == json::object_text(json::member_texts(doc)),
        (forall|j: int|
            0 <= j < doc.len() ==> (#[trigger] doc[j]).0 != "message"@ && doc[j].0 != "msg"@)
            ==> record_of_doc(doc).message == json::object_text(json::member_texts(doc)),
        doc[i].0 == "@timestamp"@ && doc[i].1.shape is Text ==> record_of_doc(doc).timestamp_ns
            == clock::instant_of(doc[i].1.shape->Text_0),
        doc[i].0 == "@timestamp"@ && !(doc[i].1.shape is Text) ==> record_of_doc(doc).timestamp_ns
            is None,
        (forall|j: int| 0 <= j < doc.len() ==> (#[trigger] doc[j]).0 != "@timestamp"@)
            ==> record_of_doc(doc).timestamp_ns is None,
{
    reveal_strlit("message");
    reveal_strlit("msg");
    reveal_strlit("@timestamp");
    assert("message"@.len() == 7);
    assert("msg"@.len() == 3);
    assert("@timestamp"@.len() == 10);
    json::law_first_member_is_found(doc, doc[i].0, i);
    if forall|j: int| 0 <= j < doc.len() ==> (#[trigger] doc[j]).0 != "message"@ {
        json::law_first_member_is_found(doc, "message"@, -1);
    }
    if forall|j: int| 0 <= j < doc.len() ==> (#[trigger] doc[j]).0 != "msg"@ {
        json::law_first_member_is_found(doc, "msg"@, -1);
    }
    if forall|j: int| 0 <= j < doc.len() ==> (#[trigger] doc[j]).0 != "@timestamp"@ {
        json::law_first_member_is_found(doc, "@timestamp"@, -1);
    }
}

/// Reading goes line by line, and a line that is blank counts for nothing. An action with a
/// `delete` member is a step by itself; after any other action the next line is its
/// document, whatever members it has. The first line that is no object ends the reading.
pub proof fn law_actions_and_documents_alternate(lines: Seq<Seq<char>>, line: Seq<char>)
    requires
        progress(lines).error is None,
    ensures
        progress(Seq::<Seq<char>>::empty()).steps.len() == 0,
        !progress(Seq::<Seq<char>>::empty()).awaiting,
        progress(Seq::<Seq<char>>::empty()).error is None,
        ({
            let before = progress(lines);
            let after = progress(lines.push(line));
            match json::json_object_of(line) {
                Err(e) => after.steps == before.steps && after.error == Some(
                    (if before.awaiting {
                        "invalid document line: "@
                    } else {
                        "invalid action line: "@
                    }) + e,
                ),
                Ok(None) => after.steps == before.steps && after.error == Some(
                    if before.awaiting {
                        "document line must be a JSON object"@
                    } else {
                        "action line must be a JSON object"@
                    },
                ),
                Ok(Some(doc)) => after.error is None && if before.awaiting {
                    after.steps == before.steps.push(Step::Store(doc)) && !after.awaiting
                } else if exists|j: int| 0 <= j < doc.len() && (#[trigger] doc[j]).0 == "delete"@ {
                    after.steps == before.steps.push(Step::Delete) && !after.awaiting
                } else {
                    after.steps == before.steps && after.awaiting
                },
            }
        }),
        filled(lines.push(line)) == if text::trimmed(line).len() == 0 {
            filled(lines)
        } else {
            filled(lines).push(line)
        },
        filled(Seq::<Seq<char>>::empty()).len() == 0,
{
    assert(lines.push(line).drop_last() =~= lines);
    if let Ok(Some(doc)) = json::json_object_of(line) {
        if exists|j: int| 0 <= j < doc.len() && (#[trigger] doc[j]).0 == "delete"@ {
            json::lemma_member_there(doc, "delete"@);
        } else {
            json::law_first_member_is_found(doc, "delete"@, -1);
        }
    }
}

/// A body that ends with an action whose document is missing is refused after the steps
/// before it, one with a bad line is refused for that line, and any other is not refused.
pub proof fn law_body_is_refused_for_its_first_fault(body: Seq<char>, more: Seq<Seq<char>>)
    ensures
        ({
            let p = progress(filled(text::text_lines(body)));
            &&& plan_of(body).0 == p.steps
            &&& p.error is Some ==> plan_of(body).1 == p.error
            &&& p.error is None && p.awaiting ==> plan_of(body).1 == Some(
                "action line with no following document line"@,
            )
            &&& p.error is None && !p.awaiting ==> plan_of(body).1 is None
            &&& p.error is Some ==> progress(filled(text::text_lines(body)) + more) == p
        }),
{
    let lines = filled(text::text_lines(body));
    if progress(lines).error is Some {
        assert((lines + more).take(lines.len() as int) =~= lines);
        lemma_error_stays(lines + more, lines.len() as int);
    }
}

/// The contents of a step are its own.
pub proof fn law_steps_are_taken_as_they_are(step: BulkStep)
    ensures
        step is Delete <==> step@ is Delete,
        step is Store ==> step@ == Step::Store(json::members(step->Store_0@)),
{
}

} // verus!
