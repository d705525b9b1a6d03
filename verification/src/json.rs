//! JSON objects as the ingest paths see them: names with values, each value by its kind
//! and by its compact text.

use serde_json::Value;

use vstd::prelude::*;

use crate::text::same_text;

verus! {

/// What kind of value it is, with its contents where it is a scalar. A number comes as a
/// 64-bit integer where it is one.
#[derive(Debug, PartialEq)]
pub enum JsonShape {
    Null,
    Bool(bool),
    Number(Option<i64>),
    Text(String),
    Array,
    Object,
}

/// A value and its compact JSON text.
#[derive(Debug, PartialEq)]
pub struct JsonValue {
    pub text: String,
    pub shape: JsonShape,
}

/// The contents of a `JsonShape`.
pub enum Shape {
    Null,
    Bool(bool),
    Number(Option<i64>),
    Text(Seq<char>),
    Array,
    Object,
}

/// The contents of a `JsonValue`.
pub struct Json {
    pub text: Seq<char>,
    pub shape: Shape,
}

impl View for JsonValue {
    type V = Json;

    open spec fn view(&self) -> Json {
        Json {
            text: self.text@,
            shape: match self.shape {
                JsonShape::Null => Shape::Null,
                JsonShape::Bool(b) => Shape::Bool(b),
                JsonShape::Number(n) => Shape::Number(n),
                JsonShape::Text(s) => Shape::Text(s@),
                JsonShape::Array => Shape::Array,
                JsonShape::Object => Shape::Object,
            },
        }
    }
}

/// The contents of a list of members.
pub open spec fn members(doc: Seq<(String, JsonValue)>) -> Seq<(Seq<char>, Json)> {
    doc.map_values(|e: (String, JsonValue)| (e.0@, e.1@))
}

/// What `serde_json` reads out of a text: its error, nothing where the value is no object,
/// or the members of the object.
pub uninterp spec fn json_object_of(text: Seq<char>) -> Result<
    Option<Seq<(Seq<char>, Json)>>,
    Seq<char>,
>;

/// The hexadecimal digit of a number below sixteen.
pub open spec fn hex_digit(n: int) -> char {
    if n < 10 {
        ('0' as int + n) as char
    } else {
        ('a' as int + n - 10) as char
    }
}

/// A character as JSON writes it inside a string: quotes, backslashes and control
/// characters are escaped.
pub open spec fn json_char(c: char) -> Seq<char> {
    let n = c as int;
    if c == '"' || c == '\\' {
        seq!['\\', c]
    } else if n == 0x8 {
        seq!['\\', 'b']
    } else if n == 0x9 {
        seq!['\\', 't']
    } else if n == 0xa {
        seq!['\\', 'n']
    } else if n == 0xc {
        seq!['\\', 'f']
    } else if n == 0xd {
        seq!['\\', 'r']
    } else if n < 0x20 {
        seq!['\\', 'u', '0', '0', hex_digit(n / 16), hex_digit(n % 16)]
    } else {
        seq![c]
    }
}

/// The characters of a text as JSON writes them inside a string.
pub open spec fn json_chars(text: Seq<char>) -> Seq<char>
    decreases text.len(),
{
    if text.len() == 0 {
        seq![]
    } else {
        json_chars(text.drop_last()) + json_char(text.last())
    }
}

/// A text as a JSON string.
pub open spec fn json_string(text: Seq<char>) -> Seq<char> {
    seq!['"'] + json_chars(text) + seq!['"']
}

/// The members of an object as JSON writes them, one behind the other.
pub open spec fn members_text(pairs: Seq<(Seq<char>, Seq<char>)>) -> Seq<char>
    decreases pairs.len(),
{
    if pairs.len() == 0 {
        seq![]
    } else {
        let last = json_string(pairs.last().0) + seq![':'] + pairs.last().1;
        if pairs.len() == 1 {
            last
        } else {
            members_text(pairs.drop_last()) + seq![','] + last
        }
    }
}

/// The compact text of the object with those members, each value given by its JSON text.
pub open spec fn object_text(pairs: Seq<(Seq<char>, Seq<char>)>) -> Seq<char> {
    seq!['{'] + members_text(pairs) + seq!['}']
}

/// The contents of a parse.
pub open spec fn parsed_view(r: Result<Option<Vec<(String, JsonValue)>>, String>) -> Result<
    Option<Seq<(Seq<char>, Json)>>,
    Seq<char>,
> {
    match r {
        Ok(Some(doc)) => Ok(Some(members(doc@))),
        Ok(None) => Ok(None),
        Err(e) => Err(e@),
    }
}

/// `serde_json::from_str` and the members of `Value::Object`, each with the text that
/// `Value::to_string` gives it. All of it depends on the text alone.
#[verifier::external_body]
pub(crate) fn json_object(text: &str) -> (r: Result<Option<Vec<(String, JsonValue)>>, String>)
    ensures
        parsed_view(r) == json_object_of(text@),
{
    let value: Value = serde_json::from_str(text).map_err(|e: serde_json::Error| e.to_string())?;
    let Value::Object(map) = value else { return Ok(None) };
    Ok(Some(map.into_iter().map(|(name, member)| {
        let text = member.to_string();
        let shape = match member {
            Value::Null => JsonShape::Null,
            Value::Bool(b) => JsonShape::Bool(b),
            Value::Number(n) => JsonShape::Number(n.as_i64()),
            Value::String(s) => JsonShape::Text(s),
            Value::Array(_) => JsonShape::Array,
            Value::Object(_) => JsonShape::Object,
        };
        (name, JsonValue { text, shape })
    }).collect()))
}

/// The items that `serde_json` reads out of a text; nothing where it is no array.
pub uninterp spec fn json_array_of(text: Seq<char>) -> Option<Seq<Json>>;

/// The contents of a list of values.
pub open spec fn items(values: Seq<JsonValue>) -> Seq<Json> {
    values.map_values(|v: JsonValue| v@)
}

/// The contents of an array.
pub open spec fn array_view(r: Option<Vec<JsonValue>>) -> Option<Seq<Json>> {
    match r {
        Some(values) => Some(items(values@)),
        None => None,
    }
}

/// `serde_json::from_str` and the items of `Value::Array`, each with the text that
/// `Value::to_string` gives it. All of it depends on the text alone.
#[verifier::external_body]
pub(crate) fn json_array(text: &str) -> (r: Option<Vec<JsonValue>>)
    ensures
        array_view(r) == json_array_of(text@),
{
    let Value::Array(items) = serde_json::from_str(text).ok()? else { return None };
    Some(items.into_iter().map(|item| {
        let text = item.to_string();
        let shape = match item {
            Value::Null => JsonShape::Null,
            Value::Bool(b) => JsonShape::Bool(b),
            Value::Number(n) => JsonShape::Number(n.as_i64()),
            Value::String(s) => JsonShape::Text(s),
            Value::Array(_) => JsonShape::Array,
            Value::Object(_) => JsonShape::Object,
        };
        JsonValue { text, shape }
    }).collect())
}

/// The members of the object that a member is, if it is one.
pub open spec fn object_member(doc: Seq<(Seq<char>, Json)>, name: Seq<char>) -> Option<
    Seq<(Seq<char>, Json)>,
> {
    match member(doc, name) {
        Some(v) => match json_object_of(v.text) {
            Ok(Some(inner)) => Some(inner),
            _ => None,
        },
        None => None,
    }
}

pub open spec fn doc_view(doc: Option<Vec<(String, JsonValue)>>) -> Option<
    Seq<(Seq<char>, Json)>,
> {
    match doc {
        Some(d) => Some(members(d@)),
        None => None,
    }
}

/// Opens the object that a member is, if it is one.
pub fn open_member(doc: &Vec<(String, JsonValue)>, name: &str) -> (r: Option<
    Vec<(String, JsonValue)>,
>)
    ensures
        doc_view(r) == object_member(members(doc@), name@),
{
    match find_member(doc, name) {
        Some(v) => match json_object(v.text.as_str()) {
            Ok(Some(inner)) => Some(inner),
            _ => None,
        },
        None => None,
    }
}

/// `<Value as ToString>::to_string` of a `Value::String`: the text in quotes, with quotes,
/// backslashes and control characters escaped.
#[verifier::external_body]
fn string_json(text: &str) -> (r: String)
    ensures
        r@ == json_string(text@),
{
    Value::String(text.to_string()).to_string()
}

/// Writes an object out of the names and the JSON texts of its members, in their order.
pub fn render_object(pairs: &Vec<(&str, &str)>) -> (r: String)
    ensures
        r@ == object_text(pair_views(pairs@)),
{
    let ghost all = pair_views(pairs@);
    let mut out: String = String::new();
    out.push('{');
    let mut i: usize = 0;
    assert(out@ =~= seq!['{'] + members_text(all.take(0)));
    while i < pairs.len()
        invariant
            i <= pairs@.len(),
            all == pair_views(pairs@),
            out@ == seq!['{'] + members_text(all.take(i as int)),
        decreases pairs.len() - i,
    {
        let (name, value): (&str, &str) = pairs[i];
        assert(all.take(i + 1).drop_last() =~= all.take(i as int));
        assert(all.take(i + 1).last() == (name@, value@));
        if i > 0 {
            out.push(',');
        }
        let quoted_name: String = string_json(name);
        out.append(quoted_name.as_str());
        out.push(':');
        out.append(value);
        assert(out@ =~= seq!['{'] + members_text(all.take(i + 1)));
        i = i + 1;
    }
    assert(all.take(i as int) =~= all);
    out.push('}');
    assert(out@ =~= object_text(all));
    out
}

pub open spec fn pair_views(pairs: Seq<(&str, &str)>) -> Seq<(Seq<char>, Seq<char>)> {
    pairs.map_values(|p: (&str, &str)| (p.0@, p.1@))
}

/// The names and value texts of members.
pub open spec fn member_texts(doc: Seq<(Seq<char>, Json)>) -> Seq<(Seq<char>, Seq<char>)> {
    doc.map_values(|e: (Seq<char>, Json)| (e.0, e.1.text))
}

/// The value of the first member of that name.
pub open spec fn member(doc: Seq<(Seq<char>, Json)>, name: Seq<char>) -> Option<Json>
    decreases doc.len(),
{
    if doc.len() == 0 {
        None
    } else if doc[0].0 == name {
        Some(doc[0].1)
    } else {
        member(doc.drop_first(), name)
    }
}

/// The text of a string value.
pub open spec fn as_text(v: Option<Json>) -> Option<Seq<char>> {
    match v {
        Some(j) => match j.shape {
            Shape::Text(s) => Some(s),
            _ => None,
        },
        None => None,
    }
}

proof fn lemma_member_skips(doc: Seq<(Seq<char>, Json)>, name: Seq<char>, i: int)
    requires
        0 <= i <= doc.len(),
        forall|j: int| 0 <= j < i ==> (#[trigger] doc[j]).0 != name,
    ensures
        member(doc, name) == member(doc.skip(i), name),
    decreases i,
{
    if i == 0 {
        assert(doc.skip(0) =~= doc);
    } else {
        lemma_member_skips(doc, name, i - 1);
        let rest = doc.skip(i - 1);
        assert(rest[0] == doc[i - 1]);
        assert(rest.drop_first() =~= doc.skip(i));
    }
}

/// Finds a member by its name.
pub fn find_member<'a>(doc: &'a Vec<(String, JsonValue)>, name: &str) -> (r: Option<&'a JsonValue>)
    ensures
        match r {
            Some(v) => member(members(doc@), name@) == Some(v@),
            None => member(members(doc@), name@) is None,
        },
{
    let ghost all = members(doc@);
    let mut i: usize = 0;
    while i < doc.len()
        invariant
            i <= doc@.len(),
            all == members(doc@),
            forall|j: int| 0 <= j < i ==> (#[trigger] all[j]).0 != name@,
        decreases doc.len() - i,
    {
        assert(all[i as int] == (doc@[i as int].0@, doc@[i as int].1@));
        if same_text(doc[i].0.as_str(), name) {
            proof {
                lemma_member_skips(all, name@, i as int);
                assert(all.skip(i as int)[0] == all[i as int]);
            }
            return Some(&doc[i].1);
        }
        i = i + 1;
    }
    proof {
        lemma_member_skips(all, name@, i as int);
    }
    None
}

/// Finds the text of a string member.
pub fn find_text<'a>(doc: &'a Vec<(String, JsonValue)>, name: &str) -> (r: Option<&'a str>)
    ensures
        match r {
            Some(s) => as_text(member(members(doc@), name@)) == Some(s@),
            None => as_text(member(members(doc@), name@)) is None,
        },
{
    match find_member(doc, name) {
        Some(v) => match &v.shape {
            JsonShape::Text(s) => Some(s.as_str()),
            _ => None,
        },
        None => None,
    }
}

/// Writes members as an object.
pub fn render_members(doc: &Vec<(String, JsonValue)>) -> (r: String)
    ensures
        r@ == object_text(member_texts(members(doc@))),
{
    let mut pairs: Vec<(&str, &str)> = Vec::new();
    let ghost all = members(doc@);
    let mut i: usize = 0;
    while i < doc.len()
        invariant
            i <= doc@.len(),
            all == members(doc@),
            pair_views(pairs@) == member_texts(all).take(i as int),
        decreases doc.len() - i,
    {
        let ghost before = pairs@;
        pairs.push((doc[i].0.as_str(), doc[i].1.text.as_str()));
        assert(pair_views(pairs@) =~= pair_views(before).push(
            (doc@[i as int].0@, doc@[i as int].1.text@),
        ));
        assert(member_texts(all).take(i + 1) =~= member_texts(all).take(i as int).push(
            member_texts(all)[i as int],
        ));
        i = i + 1;
    }
    assert(member_texts(all).take(i as int) =~= member_texts(all));
    render_object(&pairs)
}

/// The first member of a name is found, with its value; a name that no member has is not.
pub proof fn law_first_member_is_found(doc: Seq<(Seq<char>, Json)>, name: Seq<char>, i: int)
    ensures
        0 <= i < doc.len() && doc[i].0 == name && (forall|j: int|
            0 <= j < i ==> (#[trigger] doc[j]).0 != name) ==> member(doc, name) == Some(doc[i].1),
        (forall|j: int| 0 <= j < doc.len() ==> (#[trigger] doc[j]).0 != name) ==> member(doc, name)
            is None,
{
    if 0 <= i < doc.len() && doc[i].0 == name && (forall|j: int|
        0 <= j < i ==> (#[trigger] doc[j]).0 != name) {
        lemma_member_skips(doc, name, i);
        assert(doc.skip(i)[0] == doc[i]);
    }
    if forall|j: int| 0 <= j < doc.len() ==> (#[trigger] doc[j]).0 != name {
        lemma_member_skips(doc, name, doc.len() as int);
    }
}

/// A name that some member has is found.
pub proof fn lemma_member_there(doc: Seq<(Seq<char>, Json)>, name: Seq<char>)
    requires
        exists|j: int| 0 <= j < doc.len() && (#[trigger] doc[j]).0 == name,
    ensures
        member(doc, name) is Some,
    decreases doc.len(),
{
    let j = choose|j: int| 0 <= j < doc.len() && (#[trigger] doc[j]).0 == name;
    if doc[0].0 != name {
        let rest = doc.drop_first();
        assert(rest[j - 1] == doc[j]);
        lemma_member_there(rest, name);
    }
}

/// A member is a text only where it is there and is a string.
pub proof fn law_only_strings_are_texts(v: Json)
    ensures
        as_text(None) is None,
        v.shape is Text ==> as_text(Some(v)) == Some(v.shape->Text_0),
        !(v.shape is Text) ==> as_text(Some(v)) is None,
{
}

/// A JSON string is the text between quotes, character by character: quotes and backslashes
/// behind a backslash, control characters by their escapes, all others as they are.
pub proof fn law_strings_are_escaped(text: Seq<char>, c: char)
    ensures
        json_string(Seq::<char>::empty()) == seq!['"', '"'],
        json_string(text).len() >= 2 && json_string(text)[0] == '"' && json_string(text).last()
            == '"',
        c == '"' ==> json_chars(text.push(c)) == json_chars(text) + seq!['\\', '"'],
        c == '\\' ==> json_chars(text.push(c)) == json_chars(text) + seq!['\\', '\\'],
        c == '\n' ==> json_chars(text.push(c)) == json_chars(text) + seq!['\\', 'n'],
        c == '\r' ==> json_chars(text.push(c)) == json_chars(text) + seq!['\\', 'r'],
        c == '\t' ==> json_chars(text.push(c)) == json_chars(text) + seq!['\\', 't'],
        c == '\u{8}' ==> json_chars(text.push(c)) == json_chars(text) + seq!['\\', 'b'],
        c == '\u{c}' ==> json_chars(text.push(c)) == json_chars(text) + seq!['\\', 'f'],
        c >= ' ' && c != '"' && c != '\\' ==> json_chars(text.push(c)) == json_chars(text).push(c),
        c == '\u{0}' ==> json_chars(text.push(c)) == json_chars(text) + "\\u0000"@,
        c == '\u{1b}' ==> json_chars(text.push(c)) == json_chars(text) + "\\u001b"@,
        json_string(text) == seq!['"'] + json_chars(text) + seq!['"'],
{
    assert(text.push(c).drop_last() =~= text);
    assert(json_string(Seq::<char>::empty()) =~= seq!['"', '"']);
    assert(json_chars(text) + seq![c] =~= json_chars(text).push(c));
    reveal_strlit("\\u0000");
    reveal_strlit("\\u001b");
    assert("\\u0000"@ =~= seq!['\\', 'u', '0', '0', '0', '0']);
    assert("\\u001b"@ =~= seq!['\\', 'u', '0', '0', '1', 'b']);
}

/// An object is its members between braces with commas between them, each the name as a
/// string, a colon, and the text of the value.
pub proof fn law_objects_list_their_members(
    pairs: Seq<(Seq<char>, Seq<char>)>,
    name: Seq<char>,
    value: Seq<char>,
)
    ensures
        object_text(Seq::<(Seq<char>, Seq<char>)>::empty()) == seq!['{', '}'],
        object_text(seq![(name, value)]) == seq!['{'] + json_string(name) + seq![':'] + value + seq![
            '}',
        ],
        pairs.len() > 0 ==> object_text(pairs.push((name, value))) == object_text(pairs).drop_last()
            + seq![','] + json_string(name) + seq![':'] + value + seq!['}'],
{
    let none = Seq::<(Seq<char>, Seq<char>)>::empty();
    assert(object_text(none) =~= seq!['{', '}']);
    let one = seq![(name, value)];
    assert(object_text(one) =~= seq!['{'] + json_string(name) + seq![':'] + value + seq!['}']);
    assert(pairs.push((name, value)).drop_last() =~= pairs);
    if pairs.len() > 0 {
        assert(object_text(pairs).drop_last() =~= seq!['{'] + members_text(pairs));
        assert(object_text(pairs.push((name, value))) =~= object_text(pairs).drop_last() + seq![
            ',',
        ] + json_string(name) + seq![':'] + value + seq!['}']);
    }
}

/// A control character without an escape of its own is written by its code in four
/// hexadecimal digits.
pub proof fn law_control_characters_are_escaped(text: Seq<char>, c: char)
    requires
        c < ' ',
        c != '\n' && c != '\r' && c != '\t' && c != '\u{8}' && c != '\u{c}',
    ensures
        json_chars(text.push(c)) == json_chars(text) + seq!['\\', 'u', '0', '0'] + seq![
            "0123456789abcdef"@[(c as int) / 16],
            "0123456789abcdef"@[(c as int) % 16],
        ],
{
    reveal_strlit("0123456789abcdef");
    assert(text.push(c).drop_last() =~= text);
    let n = c as int;
    assert(hex_digit(n / 16) == "0123456789abcdef"@[n / 16]);
    assert(hex_digit(n % 16) == "0123456789abcdef"@[n % 16]);
    assert(json_chars(text.push(c)) =~= json_chars(text) + seq!['\\', 'u', '0', '0'] + seq![
        "0123456789abcdef"@[(c as int) / 16],
        "0123456789abcdef"@[(c as int) % 16],
    ]);
}

/// The object at a name is what the text of the first member of that name holds, where that
/// is an object.
pub proof fn law_objects_are_opened(
    doc: Seq<(Seq<char>, Json)>,
    name: Seq<char>,
    i: int,
    inner: Seq<(Seq<char>, Json)>,
)
    ensures
        0 <= i < doc.len() && doc[i].0 == name && (forall|j: int|
            0 <= j < i ==> (#[trigger] doc[j]).0 != name) && json_object_of(doc[i].1.text) == Ok::<
            Option<Seq<(Seq<char>, Json)>>,
            Seq<char>,
        >(Some(inner)) ==> object_member(doc, name) == Some(inner),
        0 <= i < doc.len() && doc[i].0 == name && (forall|j: int|
            0 <= j < i ==> (#[trigger] doc[j]).0 != name) && !(json_object_of(doc[i].1.text) matches Ok(
            Some(_),
        )) ==> object_member(doc, name) is None,
        (forall|j: int| 0 <= j < doc.len() ==> (#[trigger] doc[j]).0 != name) ==> object_member(
            doc,
            name,
        ) is None,
{
    law_first_member_is_found(doc, name, i);
}

/// The contents of members are their own, in their order: the name, the text, and what kind
/// of value it is.
pub proof fn law_members_are_taken_as_given(doc: Seq<(String, JsonValue)>, i: int)
    requires
        0 <= i < doc.len(),
    ensures
        members(doc).len() == doc.len(),
        members(doc)[i].0 == doc[i].0@,
        members(doc)[i].1.text == doc[i].1.text@,
        doc[i].1.shape is Null <==> members(doc)[i].1.shape is Null,
        doc[i].1.shape is Array <==> members(doc)[i].1.shape is Array,
        doc[i].1.shape is Object <==> members(doc)[i].1.shape is Object,
        doc[i].1.shape is Text ==> members(doc)[i].1.shape == Shape::Text(doc[i].1.shape->Text_0@),
        doc[i].1.shape is Bool ==> members(doc)[i].1.shape == Shape::Bool(doc[i].1.shape->Bool_0),
        doc[i].1.shape is Number ==> members(doc)[i].1.shape == Shape::Number(
            doc[i].1.shape->Number_0,
        ),
{
}

} // verus!
