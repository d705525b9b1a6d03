//! What the listeners share, and the wire format of each.

use vstd::prelude::*;

use crate::decimal;
use crate::decimal::{parse_i64, parse_natural};
use crate::strmap::FieldMap;
use crate::text;
use crate::text::{concat3, starts_with};

pub mod es_bulk;
pub mod loki;
pub mod native;
pub mod query_api;
pub mod syslog;

verus! {

/// A request that is answered with an error: the HTTP status and the words.
#[derive(Debug, PartialEq)]
pub struct Refused {
    pub status: u16,
    pub message: String,
}

pub open spec fn missing_param(name: Seq<char>) -> Seq<char> {
    "missing `"@ + name + "` param"@
}

pub open spec fn invalid_param(name: Seq<char>) -> Seq<char> {
    "invalid `"@ + name + "` param"@
}

/// The 64-bit number that a parameter writes, or why it does not.
pub open spec fn number_param(params: Map<Seq<char>, Seq<char>>, name: Seq<char>) -> Result<
    i64,
    Seq<char>,
> {
    if !params.dom().contains(name) {
        Err(missing_param(name))
    } else {
        match decimal::integer_within(params[name], i64::MIN as int, i64::MAX as int) {
            Some(n) => Ok(n as i64),
            None => Err(invalid_param(name)),
        }
    }
}

/// The time range that the parameters `start` and `end` write, or why they do not.
pub open spec fn range_of(params: Map<Seq<char>, Seq<char>>) -> Result<(i64, i64), Seq<char>> {
    match number_param(params, "start"@) {
        Err(e) => Err(e),
        Ok(start) => match number_param(params, "end"@) {
            Err(e) => Err(e),
            Ok(end) => Ok((start, end)),
        },
    }
}

fn read_number(params: &FieldMap, name: &str) -> (r: Result<i64, String>)
    ensures
        match r {
            Ok(n) => number_param(params.texts(), name@) == Ok::<i64, Seq<char>>(n),
            Err(e) => number_param(params.texts(), name@) == Err::<i64, Seq<char>>(e@),
        },
{
    match params.get_text(name) {
        None => Err(concat3("missing `", name, "` param")),
        Some(s) => match parse_i64(s) {
            Some(n) => Ok(n),
            None => Err(concat3("invalid `", name, "` param")),
        },
    }
}

/// Reads the time range of a query, in nanoseconds. A bad range is a bad request.
pub fn parse_range(params: &FieldMap) -> (r: Result<(i64, i64), Refused>)
    ensures
        match r {
            Ok(range) => range_of(params.texts()) == Ok::<(i64, i64), Seq<char>>(range),
            Err(e) => e.status == 400 && range_of(params.texts()) == Err::<
                (i64, i64),
                Seq<char>,
            >(e.message@),
        },
{
    match read_number(params, "start") {
        Err(e) => Err(Refused { status: 400, message: e }),
        Ok(start) => match read_number(params, "end") {
            Err(e) => Err(Refused { status: 400, message: e }),
            Ok(end) => Ok((start, end)),
        },
    }
}

/// The count that a parameter writes, `default` where it is not there, or why it does not.
pub open spec fn count_param(
    params: Map<Seq<char>, Seq<char>>,
    name: Seq<char>,
    default: int,
) -> Result<int, Seq<char>> {
    if !params.dom().contains(name) {
        Ok(default)
    } else {
        match decimal::natural_within(params[name], usize::MAX as int) {
            Some(n) => Ok(n as int),
            None => Err(invalid_param(name)),
        }
    }
}

/// Reads a count. A bad one is a bad request.
pub fn parse_count(params: &FieldMap, name: &str, default: usize) -> (r: Result<usize, Refused>)
    ensures
        match r {
            Ok(n) => count_param(params.texts(), name@, default as int) == Ok::<int, Seq<char>>(
                n as int,
            ),
            Err(e) => e.status == 400 && count_param(params.texts(), name@, default as int)
                == Err::<int, Seq<char>>(e.message@),
        },
{
    match params.get_text(name) {
        None => Ok(default),
        Some(s) => match parse_natural(s, usize::MAX as u64) {
            Some(n) => Ok(n as usize),
            None => Err(Refused { status: 400, message: concat3("invalid `", name, "` param") }),
        },
    }
}

/// The content type of a request starts with `kind`.
pub open spec fn is_of_type(content_type: Option<&str>, kind: Seq<char>) -> bool {
    match content_type {
        Some(ct) => text::after_prefix(ct@, kind) is Some,
        None => false,
    }
}

/// Whether a request declares JSON.
pub fn declares_json(content_type: Option<&str>) -> (r: bool)
    ensures
        r == is_of_type(content_type, "application/json"@),
{
    match content_type {
        Some(ct) => starts_with(ct, "application/json"),
        None => false,
    }
}

/// Whether a request declares a protobuf message.
pub fn declares_protobuf(content_type: Option<&str>) -> (r: bool)
    ensures
        r == is_of_type(content_type, "application/x-protobuf"@),
{
    match content_type {
        Some(ct) => starts_with(ct, "application/x-protobuf"),
        None => false,
    }
}

/// The range of a query is its two numbers, `start` and `end`, in decimal: both have to be
/// there and to fit 64 bits, and the first that does not is named.
pub proof fn law_range_is_start_and_end(params: Map<Seq<char>, Seq<char>>, start: i64, end: i64)
    ensures
        range_of(params) == Ok::<(i64, i64), Seq<char>>((start, end)) <==> params.dom().contains(
            "start"@,
        ) && params.dom().contains("end"@) && decimal::integer_of(params["start"@]) == Some(
            start as int,
        ) && decimal::integer_of(params["end"@]) == Some(end as int),
        !params.dom().contains("start"@) ==> range_of(params) == Err::<(i64, i64), Seq<char>>(
            "missing `"@ + "start"@ + "` param"@,
        ),
        params.dom().contains("start"@) && decimal::integer_of(params["start"@]) is None
            ==> range_of(params) == Err::<(i64, i64), Seq<char>>(
            "invalid `"@ + "start"@ + "` param"@,
        ),
        params.dom().contains("start"@) && decimal::integer_of(params["start"@]) == Some(
            start as int,
        ) && !params.dom().contains("end"@) ==> range_of(params) == Err::<(i64, i64), Seq<char>>(
            "missing `"@ + "end"@ + "` param"@,
        ),
        params.dom().contains("start"@) && decimal::integer_of(params["start"@]) == Some(
            start as int,
        ) && params.dom().contains("end"@) && decimal::integer_of(params["end"@]) is None
            ==> range_of(params) == Err::<(i64, i64), Seq<char>>(
            "invalid `"@ + "end"@ + "` param"@,
        ),
{
}

/// A count is the number that its parameter writes; without the parameter it is the default,
/// and a parameter that writes no count is named.
pub proof fn law_count_or_default(
    params: Map<Seq<char>, Seq<char>>,
    name: Seq<char>,
    default: int,
    n: nat,
)
    requires
        n <= usize::MAX,
    ensures
        !params.dom().contains(name) ==> count_param(params, name, default) == Ok::<int, Seq<char>>(
            default,
        ),
        params.dom().contains(name) && decimal::natural_of(params[name]) == Some(n) ==> count_param(
            params,
            name,
            default,
        ) == Ok::<int, Seq<char>>(n as int),
        params.dom().contains(name) && (decimal::natural_of(params[name]) is None
            || decimal::natural_of(params[name])->0 > usize::MAX) ==> count_param(
            params,
            name,
            default,
        ) == Err::<int, Seq<char>>("invalid `"@ + name + "` param"@),
{
}

/// A content type is recognised by how it starts, whatever follows; no content type is
/// none.
pub proof fn law_content_type_goes_by_its_start(ct: &str, kind: Seq<char>, rest: Seq<char>)
    ensures
        ct@ == kind + rest ==> is_of_type(Some(ct), kind),
        is_of_type(Some(ct), kind) ==> kind.is_prefix_of(ct@),
        !is_of_type(None, kind),
{
    text::law_prefixes_are_taken_off(ct@, kind, rest, ' ');
}

} // verus!
