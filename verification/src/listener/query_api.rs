//! The query endpoints: selectors, full-text search, aggregates.

use vstd::prelude::*;

use crate::decimal;
use crate::floattext;
use crate::floattext::is_float;
use crate::listener;
use crate::listener::{parse_count, parse_range, Refused};
use crate::rollup::sketch;
use crate::rollup::sketch::FieldSketch;
use crate::rollup::space_saving;
use crate::strmap::{FieldMap, StrMap};
use crate::text;
use crate::text::{concat, concat3, contains, quoted, same_text};
use crate::textindex;

verus! {

/// How many hits a search returns at most.
pub const MAX_SEARCH_HITS: usize = 1000;

/// How many hits a search returns by default.
pub const DEFAULT_SEARCH_HITS: usize = 10;

/// A selector query.
#[derive(Debug)]
pub struct LogsQuery {
    pub start_ns: i64,
    pub end_ns: i64,
    pub filters: FieldMap,
}

/// The filters of a selector query: every parameter but the range.
pub open spec fn filters_of(params: Map<Seq<char>, Seq<char>>) -> Map<Seq<char>, Seq<char>> {
    params.remove("start"@).remove("end"@)
}

/// Reads a selector query: a time range, and a filter for every other parameter.
pub fn parse_logs_query(params: &FieldMap) -> (r: Result<LogsQuery, Refused>)
    ensures
        match r {
            Ok(q) => listener::range_of(params.texts()) == Ok::<(i64, i64), Seq<char>>(
                (q.start_ns, q.end_ns),
            ) && q.filters.texts() == filters_of(params.texts()),
            Err(e) => e.status == 400 && listener::range_of(params.texts()) == Err::<
                (i64, i64),
                Seq<char>,
            >(e.message@),
        },
{
    match parse_range(params) {
        Err(e) => Err(e),
        Ok((start_ns, end_ns)) => {
            let mut filters: FieldMap = params.copy();
            filters.drop_key("start");
            filters.drop_key("end");
            Ok(LogsQuery { start_ns, end_ns, filters })
        },
    }
}

/// A search.
#[derive(Debug, PartialEq)]
pub struct SearchQuery {
    pub start_ns: i64,
    pub end_ns: i64,
    pub text: String,
    /// How many hits to return.
    pub k: usize,
    /// Whether vectors are searched besides the text.
    pub hybrid: bool,
}

/// The contents of a `SearchQuery`.
#[verifier::ext_equal]
pub struct Search {
    pub start_ns: i64,
    pub end_ns: i64,
    pub text: Seq<char>,
    pub k: int,
    pub hybrid: bool,
}

impl View for SearchQuery {
    type V = Search;

    open spec fn view(&self) -> Search {
        Search {
            start_ns: self.start_ns,
            end_ns: self.end_ns,
            text: self.text@,
            k: self.k as int,
            hybrid: self.hybrid,
        }
    }
}

/// What the parameters of a search ask for, or why they are refused.
pub open spec fn search_of(params: Map<Seq<char>, Seq<char>>) -> Result<Search, Seq<char>> {
    match listener::range_of(params) {
        Err(e) => Err(e),
        Ok(range) => if !params.dom().contains("q"@) {
            Err("missing `q` param"@)
        } else {
            match listener::count_param(params, "k"@, DEFAULT_SEARCH_HITS as int) {
                Err(e) => Err(e),
                Ok(k) => Ok(
                    Search {
                        start_ns: range.0,
                        end_ns: range.1,
                        text: params["q"@],
                        k: if k > MAX_SEARCH_HITS {
                            MAX_SEARCH_HITS as int
                        } else {
                            k
                        },
                        hybrid: params.dom().contains("mode"@) && params["mode"@] == "hybrid"@,
                    },
                ),
            }
        },
    }
}

/// Reads the parameters of a search. Bad ones are a bad request.
pub fn parse_search_query(params: &FieldMap) -> (r: Result<SearchQuery, Refused>)
    ensures
        match r {
            Ok(q) => search_of(params.texts()) == Ok::<Search, Seq<char>>(q@),
            Err(e) => e.status == 400 && search_of(params.texts()) == Err::<Search, Seq<char>>(
                e.message@,
            ),
        },
{
    match parse_range(params) {
        Err(e) => Err(e),
        Ok((start_ns, end_ns)) => match params.get_text("q") {
            None => Err(Refused { status: 400, message: "missing `q` param".to_string() }),
            Some(q) => match parse_count(params, "k", DEFAULT_SEARCH_HITS) {
                Err(e) => Err(e),
                Ok(count) => {
                    let k: usize = if count > MAX_SEARCH_HITS {
                        MAX_SEARCH_HITS
                    } else {
                        count
                    };
                    let hybrid: bool = match params.get_text("mode") {
                        Some(m) => same_text(m, "hybrid"),
                        None => false,
                    };
                    Ok(SearchQuery { start_ns, end_ns, text: q.to_string(), k, hybrid })
                },
            },
        },
    }
}

/// How many text hits are fetched for a search of `k`.
pub open spec fn candidates_for(k: nat) -> nat {
    2 * k
}

/// How many text hits are fetched for a search of `k`: twice as many, for the fusion.
pub fn candidates(k: usize) -> (r: usize)
    requires
        k <= MAX_SEARCH_HITS,
    ensures
        r == 2 * k,
        r == candidates_for(k as nat),
{
    k * 2
}

/// How the hits of a search are ranked.
#[derive(Debug, Clone, Copy, PartialEq, Eq, Structural)]
pub enum Ranking {
    /// The text hits alone.
    Text,
    /// The text hits and the vector hits, fused.
    Fused,
}

/// The ranking of a search.
pub open spec fn ranking_for(hybrid: bool, configured: bool, embedded: bool) -> Ranking {
    if hybrid && configured && embedded {
        Ranking::Fused
    } else {
        Ranking::Text
    }
}

/// Picks the ranking: a hybrid search falls back to text where embeddings are not
/// configured or the query could not be embedded.
pub fn choose_ranking(hybrid: bool, configured: bool, embedded: bool) -> (r: Ranking)
    ensures
        (r is Fused) == (hybrid && configured && embedded),
        r == ranking_for(hybrid, configured, embedded),
{
    if hybrid && configured && embedded {
        Ranking::Fused
    } else {
        Ranking::Text
    }
}

/// The status and message that answer a search that failed: a range that is too wide is the
/// client's fault, all else is not shown.
pub open spec fn search_refusal(why: Seq<char>) -> (u16, Seq<char>) {
    if text::has_substring(why, "narrow the time range"@) {
        (400, why)
    } else {
        (500, "internal error"@)
    }
}

/// How a search that failed is answered.
pub fn refuse_search(why: &str) -> (r: Refused)
    ensures
        (r.status, r.message@) == search_refusal(why@),
{
    if contains(why, "narrow the time range") {
        Refused { status: 400, message: why.to_string() }
    } else {
        internal_error()
    }
}

/// A search that is refused for its range is answered with the reason, as a bad request.
pub proof fn law_wide_search_is_a_bad_request(asked: int, bucket_secs: nat)
    ensures
        search_refusal(textindex::too_wide(asked, bucket_secs)) == (
            400u16,
            textindex::too_wide(asked, bucket_secs),
        ),
{
    let tail = "s bucket duration — narrow the time range"@;
    let needle = "narrow the time range"@;
    let why = textindex::too_wide(asked, bucket_secs);
    reveal_strlit("s bucket duration — narrow the time range");
    reveal_strlit("narrow the time range");
    assert(tail.subrange(tail.len() - needle.len(), tail.len() as int) =~= needle);
    let at = why.len() - needle.len();
    assert(why.subrange(at, at + needle.len()) =~= needle) by {
        let front = why.len() - tail.len();
        assert(why.skip(front) =~= tail);
        assert forall|i: int| 0 <= i < needle.len() implies why[at + i] == needle[i] by {
            assert(why.skip(front)[at - front + i] == tail[at - front + i]);
            assert(tail.subrange(tail.len() - needle.len(), tail.len() as int)[i] == needle[i]);
        }
    }
}

/// The answer to a request that failed for a reason that is not shown.
pub fn internal_error() -> (r: Refused)
    ensures
        r.status == 500,
        r.message@ == "internal error"@,
{
    Refused { status: 500, message: "internal error".to_string() }
}

/// The first `k` hits.
pub fn first_hits<T>(hits: Vec<T>, k: usize) -> (r: Vec<T>)
    ensures
        r@ == space_saving::first(hits@, k as nat),
{
    let ghost all = hits@;
    let mut out: Vec<T> = hits;
    out.truncate(k);
    assert(out@ =~= space_saving::first(all, k as nat));
    out
}

/// An aggregate query.
#[derive(Debug)]
pub struct AggregateQuery {
    pub start_ns: i64,
    pub end_ns: i64,
    pub field: String,
    pub op: String,
}

/// What the parameters of an aggregate ask for: range, field and operation, which is a
/// count by default.
pub open spec fn aggregate_of(params: Map<Seq<char>, Seq<char>>) -> Result<
    ((i64, i64), Seq<char>, Seq<char>),
    Seq<char>,
> {
    match listener::range_of(params) {
        Err(e) => Err(e),
        Ok(range) => if !params.dom().contains("field"@) {
            Err("missing `field` param"@)
        } else {
            Ok(
                (
                    range,
                    params["field"@],
                    if params.dom().contains("op"@) {
                        params["op"@]
                    } else {
                        "count"@
                    },
                ),
            )
        },
    }
}

/// Reads the parameters of an aggregate. Bad ones are a bad request.
pub fn parse_aggregate_query(params: &FieldMap) -> (r: Result<AggregateQuery, Refused>)
    ensures
        match r {
            Ok(q) => aggregate_of(params.texts()) == Ok::<
                ((i64, i64), Seq<char>, Seq<char>),
                Seq<char>,
            >(((q.start_ns, q.end_ns), q.field@, q.op@)),
            Err(e) => e.status == 400 && aggregate_of(params.texts()) == Err::<
                ((i64, i64), Seq<char>, Seq<char>),
                Seq<char>,
            >(e.message@),
        },
{
    match parse_range(params) {
        Err(e) => Err(e),
        Ok((start_ns, end_ns)) => match params.get_text("field") {
            None => Err(Refused { status: 400, message: "missing `field` param".to_string() }),
            Some(field) => {
                let op: &str = match params.get_text("op") {
                    Some(o) => o,
                    None => "count",
                };
                Ok(
                    AggregateQuery {
                        start_ns,
                        end_ns,
                        field: field.to_string(),
                        op: op.to_string(),
                    },
                )
            },
        },
    }
}

/// The answer where a field has no rollup in the range.
pub fn no_rollup_data(field: &str) -> (r: Refused)
    ensures
        r.status == 404,
        r.message@ == "no rollup data for field "@ + text::debug_text(field@) + " in range"@,
{
    Refused {
        status: 404,
        message: concat3("no rollup data for field ", quoted(field).as_str(), " in range"),
    }
}

/// The answer to an aggregate. Estimates are the bits of a float.
#[derive(Debug)]
pub enum AggregateAnswer {
    Count(StrMap<u64>),
    Cardinality(u64),
    TopK(Vec<(String, u64)>),
    Quantile(u64),
}

/// Why an aggregate is refused: the words, or nothing where it is answered.
pub open spec fn aggregate_refusal(
    s: FieldSketch,
    op: Seq<char>,
    params: Map<Seq<char>, Seq<char>>,
) -> Option<Seq<char>> {
    if op == "count"@ {
        if s is Exact {
            None
        } else {
            Some("field is not an exact-counter rollup"@)
        }
    } else if op == "cardinality"@ {
        if s is Hll {
            None
        } else {
            Some("field is not an hll rollup"@)
        }
    } else if op == "topk"@ {
        match listener::count_param(params, "k"@, 10) {
            Err(e) => Some(e),
            Ok(_) => if s is TopK {
                None
            } else {
                Some("field is not a topk rollup"@)
            },
        }
    } else if op == "quantile"@ {
        if !params.dom().contains("q"@) {
            Some("missing `q` param for quantile"@)
        } else if !floattext::is_float_text(params["q"@]) {
            Some("invalid `q` param"@)
        } else if has_quantile(s, params["q"@]) {
            None
        } else {
            Some("field is not a ddsketch rollup"@)
        }
    } else {
        Some("unknown op "@ + text::debug_text(op))
    }
}

/// The sketch answers that quantile.
pub open spec fn has_quantile(s: FieldSketch, q: Seq<char>) -> bool {
    match s {
        FieldSketch::DDSketch(d) => sketch::dd_count(*d) != 0 && sketch::quantile_in_range(q),
        _ => false,
    }
}

/// The answer is the one that the operation asks for.
pub open spec fn answers(
    s: FieldSketch,
    op: Seq<char>,
    params: Map<Seq<char>, Seq<char>>,
    answer: AggregateAnswer,
) -> bool {
    match answer {
        AggregateAnswer::Count(counts) => op == "count"@ && (s matches FieldSketch::Exact(m)
            && counts@ == m@),
        AggregateAnswer::Cardinality(bits) => op == "cardinality"@ && (s matches FieldSketch::Hll(h)
            && sketch::is_estimate(*h, bits)),
        AggregateAnswer::TopK(top) => op == "topk"@ && (s matches FieldSketch::TopK(ss)
            && space_saving::count_views(top@) == space_saving::first(
            space_saving::ranking(ss@),
            (listener::count_param(params, "k"@, 10)->Ok_0) as nat,
        )),
        AggregateAnswer::Quantile(bits) => op == "quantile"@ && (s matches FieldSketch::DDSketch(d)
            && sketch::is_quantile(*d, params["q"@], bits)),
    }
}

/// What an answer leaves of the sketch: asking for a count of distinct values folds pending
/// ones in, all else changes nothing.
pub open spec fn leaves(before: FieldSketch, op: Seq<char>, after: FieldSketch) -> bool {
    if op == "cardinality"@ && before is Hll {
        sketch::is_counted(before, after)
    } else {
        after == before
    }
}

/// Answers an aggregate from a merged sketch.
pub fn answer_aggregate(s: &mut FieldSketch, op: &str, params: &FieldMap) -> (r: Result<
    AggregateAnswer,
    Refused,
>)
    requires
        old(s).sound(),
    ensures
        match r {
            Ok(a) => aggregate_refusal(*old(s), op@, params.texts()) is None && answers(
                *old(s),
                op@,
                params.texts(),
                a,
            ),
            Err(e) => e.status == 400 && aggregate_refusal(*old(s), op@, params.texts()) == Some(
                e.message@,
            ),
        },
        leaves(*old(s), op@, *final(s)),
        final(s).sound(),
{
    proof {
        reveal_strlit("count");
        reveal_strlit("cardinality");
        reveal_strlit("topk");
        reveal_strlit("quantile");
        assert("count"@.len() == 5);
        assert("cardinality"@.len() == 11);
        assert("topk"@.len() == 4);
        assert("quantile"@.len() == 8);
    }
    if same_text(op, "count") {
        match s.exact_counts() {
            Some(counts) => Ok(AggregateAnswer::Count(counts)),
            None => Err(bad_request("field is not an exact-counter rollup")),
        }
    } else if same_text(op, "cardinality") {
        match s.hll_estimate() {
            Some(bits) => Ok(AggregateAnswer::Cardinality(bits)),
            None => Err(bad_request("field is not an hll rollup")),
        }
    } else if same_text(op, "topk") {
        match parse_count(params, "k", 10) {
            Err(e) => Err(e),
            Ok(count) => match s.top_k(count) {
                Some(top) => Ok(AggregateAnswer::TopK(top)),
                None => Err(bad_request("field is not a topk rollup")),
            },
        }
    } else if same_text(op, "quantile") {
        match params.get_text("q") {
            None => Err(bad_request("missing `q` param for quantile")),
            Some(q) => {
                if !is_float(q) {
                    return Err(bad_request("invalid `q` param"));
                }
                match s.quantile(q) {
                    Some(bits) => Ok(AggregateAnswer::Quantile(bits)),
                    None => Err(bad_request("field is not a ddsketch rollup")),
                }
            },
        }
    } else {
        Err(Refused { status: 400, message: concat("unknown op ", quoted(op).as_str()) })
    }
}

fn bad_request(why: &str) -> (r: Refused)
    ensures
        r.status == 400,
        r.message@ == why@,
{
    Refused { status: 400, message: why.to_string() }
}

/// Every parameter but `start` and `end` is a filter, with its value as it was given.
pub proof fn law_other_parameters_are_filters(
    params: Map<Seq<char>, Seq<char>>,
    name: Seq<char>,
)
    ensures
        filters_of(params).dom().contains(name) <==> params.dom().contains(name) && name != "start"@
            && name != "end"@,
        filters_of(params).dom().contains(name) ==> filters_of(params)[name] == params[name],
{
}

/// A search needs a range and a text. It asks for as many hits as `k` says, for ten where
/// nothing is said, and for no more than a thousand; it is hybrid only where `mode` says so.
pub proof fn law_search_parameters(params: Map<Seq<char>, Seq<char>>)
    ensures
        search_of(params) is Ok <==> listener::range_of(params) is Ok && params.dom().contains("q"@)
            && (params.dom().contains("k"@) ==> decimal::natural_of(params["k"@]) is Some
            && decimal::natural_of(params["k"@])->0 <= usize::MAX),
        search_of(params) is Ok ==> ({
            let s = search_of(params)->Ok_0;
            &&& (s.start_ns, s.end_ns) == listener::range_of(params)->Ok_0
            &&& s.text == params["q"@]
            &&& !params.dom().contains("k"@) ==> s.k == 10
            &&& params.dom().contains("k"@) && decimal::natural_of(params["k"@])->0 <= 1000 ==> s.k
                == decimal::natural_of(params["k"@])->0
            &&& params.dom().contains("k"@) && decimal::natural_of(params["k"@])->0 > 1000 ==> s.k
                == 1000
            &&& s.hybrid <==> params.dom().contains("mode"@) && params["mode"@] == "hybrid"@
        }),
        listener::range_of(params) is Err ==> search_of(params)->Err_0 == listener::range_of(
            params,
        )->Err_0,
        listener::range_of(params) is Ok && !params.dom().contains("q"@) ==> search_of(
            params,
        )->Err_0 == "missing `q` param"@,
{
}

/// A failure whose reason asks to narrow the time range, whatever stands around those words,
/// is the client's and is shown; any other is not shown.
pub proof fn law_only_a_wide_range_is_shown(why: Seq<char>, a: Seq<char>, b: Seq<char>)
    ensures
        why == a + "narrow the time range"@ + b ==> search_refusal(why) == (400u16, why),
        (forall|x: Seq<char>, y: Seq<char>| why != #[trigger] (x + "narrow the time range"@ + y))
            ==> search_refusal(why) == (500u16, "internal error"@),
{
    text::law_substrings_stand_between(why, "narrow the time range"@, a, b);
}

/// An aggregate needs a range and a field; it counts where no operation is named.
pub proof fn law_aggregate_parameters(params: Map<Seq<char>, Seq<char>>)
    ensures
        aggregate_of(params) is Ok <==> listener::range_of(params) is Ok && params.dom().contains(
            "field"@,
        ),
        aggregate_of(params) is Ok ==> (aggregate_of(params)->Ok_0).0 == listener::range_of(
            params,
        )->Ok_0 && (aggregate_of(params)->Ok_0).1 == params["field"@],
        aggregate_of(params) is Ok && params.dom().contains("op"@) ==> (aggregate_of(
            params,
        )->Ok_0).2 == params["op"@],
        aggregate_of(params) is Ok && !params.dom().contains("op"@) ==> (aggregate_of(
            params,
        )->Ok_0).2 == "count"@,
        listener::range_of(params) is Err ==> aggregate_of(params)->Err_0 == listener::range_of(
            params,
        )->Err_0,
        listener::range_of(params) is Ok && !params.dom().contains("field"@) ==> aggregate_of(
            params,
        )->Err_0 == "missing `field` param"@,
{
}

/// Each operation is answered from one kind of sketch and from no other: counts from exact
/// counts, the number of distinct values from a HyperLogLog++, the heaviest values from a
/// top-k sketch, a quantile between zero and one from a DDSketch that is not empty. Any
/// other operation is refused.
pub proof fn law_each_operation_has_its_sketch(
    s: FieldSketch,
    op: Seq<char>,
    params: Map<Seq<char>, Seq<char>>,
    answer: AggregateAnswer,
)
    ensures
        op == "count"@ ==> (aggregate_refusal(s, op, params) is None <==> s is Exact),
        op == "cardinality"@ ==> (aggregate_refusal(s, op, params) is None <==> s is Hll),
        op == "topk"@ && !params.dom().contains("k"@) ==> (aggregate_refusal(s, op, params) is None
            <==> s is TopK),
        op == "quantile"@ ==> (aggregate_refusal(s, op, params) is None <==> s is DDSketch
            && params.dom().contains("q"@) && floattext::is_float_text(params["q"@])
            && sketch::dd_count(*s->DDSketch_0) != 0 && !sketch::float_less(
            sketch::float_bits(params["q"@]),
            0,
        ) && !sketch::float_less(0x3ff0_0000_0000_0000, sketch::float_bits(params["q"@]))),
        op != "count"@ && op != "cardinality"@ && op != "topk"@ && op != "quantile"@
            ==> aggregate_refusal(s, op, params) is Some,
        answers(s, op, params, answer) ==> (answer is Count <==> op == "count"@) && (
        answer is Cardinality <==> op == "cardinality"@) && (answer is TopK <==> op == "topk"@) && (
        answer is Quantile <==> op == "quantile"@),
        answers(s, op, params, answer) && answer is Count ==> s is Exact && answer->Count_0@
            == s->Exact_0@,
        answers(s, op, params, answer) && answer is Cardinality ==> s is Hll && sketch::is_estimate(
            *s->Hll_0,
            answer->Cardinality_0,
        ),
        answers(s, op, params, answer) && answer is TopK ==> s is TopK
            && space_saving::count_views(answer->TopK_0@).is_prefix_of(
            space_saving::ranking(s->TopK_0@),
        ),
        answers(s, op, params, answer) && answer is TopK && !params.dom().contains("k"@)
            ==> answer->TopK_0@.len() == if space_saving::ranking(s->TopK_0@).len() < 10 {
            space_saving::ranking(s->TopK_0@).len() as int
        } else {
            10
        },
        answers(s, op, params, answer) && answer is TopK && params.dom().contains("k"@)
            && decimal::natural_of(params["k"@]) is Some && decimal::natural_of(params["k"@])->0
            <= usize::MAX ==> answer->TopK_0@.len() == if space_saving::ranking(s->TopK_0@).len()
            < decimal::natural_of(params["k"@])->0 {
            space_saving::ranking(s->TopK_0@).len() as int
        } else {
            decimal::natural_of(params["k"@])->0 as int
        },
        answers(s, op, params, answer) && answer is Quantile ==> s is DDSketch
            && sketch::is_quantile(*s->DDSketch_0, params["q"@], answer->Quantile_0),
{
    reveal_strlit("count");
    reveal_strlit("cardinality");
    reveal_strlit("topk");
    reveal_strlit("quantile");
    assert("count"@.len() == 5);
    assert("cardinality"@.len() == 11);
    assert("topk"@.len() == 4);
    assert("quantile"@.len() == 8);
    if s is TopK {
        let all = space_saving::ranking(s->TopK_0@);
        if listener::count_param(params, "k"@, 10) is Ok {
            space_saving::law_first_items(
                all,
                listener::count_param(params, "k"@, 10)->Ok_0 as nat,
            );
        }
        space_saving::law_first_items(
            all,
            (listener::count_param(params, "k"@, 10)->Ok_0) as nat,
        );
    }
}

/// The contents of a search are its own.
pub proof fn law_searches_are_taken_as_they_are(q: SearchQuery)
    ensures
        q@.start_ns == q.start_ns,
        q@.end_ns == q.end_ns,
        q@.text == q.text@,
        q@.k == q.k,
        q@.hybrid == q.hybrid,
{
}

/// An aggregate that cannot be answered is refused in words that say what is missing: the
/// kind of sketch, the quantile, or the operation.
pub proof fn law_aggregate_refusals_in_words(
    s: FieldSketch,
    op: Seq<char>,
    params: Map<Seq<char>, Seq<char>>,
)
    ensures
        op == "count"@ && !(s is Exact) ==> aggregate_refusal(s, op, params) == Some(
            "field is not an exact-counter rollup"@,
        ),
        op == "cardinality"@ && !(s is Hll) ==> aggregate_refusal(s, op, params) == Some(
            "field is not an hll rollup"@,
        ),
        op == "topk"@ && params.dom().contains("k"@) && decimal::natural_of(params["k"@]) is None
            ==> aggregate_refusal(s, op, params) == Some("invalid `"@ + "k"@ + "` param"@),
        op == "topk"@ && !params.dom().contains("k"@) && !(s is TopK) ==> aggregate_refusal(
            s,
            op,
            params,
        ) == Some("field is not a topk rollup"@),
        op == "quantile"@ && !params.dom().contains("q"@) ==> aggregate_refusal(s, op, params)
            == Some("missing `q` param for quantile"@),
        op == "quantile"@ && params.dom().contains("q"@) && !floattext::is_float_text(params["q"@])
            ==> aggregate_refusal(s, op, params) == Some("invalid `q` param"@),
        op == "quantile"@ && params.dom().contains("q"@) && floattext::is_float_text(params["q"@])
            && !(s is DDSketch) ==> aggregate_refusal(s, op, params) == Some(
            "field is not a ddsketch rollup"@,
        ),
        op != "count"@ && op != "cardinality"@ && op != "topk"@ && op != "quantile"@
            ==> aggregate_refusal(s, op, params) == Some("unknown op "@ + text::debug_text(op)),
{
    reveal_strlit("count");
    reveal_strlit("cardinality");
    reveal_strlit("topk");
    reveal_strlit("quantile");
    assert("count"@.len() == 5);
    assert("cardinality"@.len() == 11);
    assert("topk"@.len() == 4);
    assert("quantile"@.len() == 8);
}

/// Only asking for the number of distinct values may change a sketch, and then only a
/// HyperLogLog++, whose precision it keeps.
pub proof fn law_answers_leave_the_sketch(before: FieldSketch, op: Seq<char>, after: FieldSketch)
    requires
        leaves(before, op, after),
    ensures
        !(before is Hll) || op != "cardinality"@ ==> after == before,
        before is Hll ==> after is Hll && sketch::hll_precision(*after->Hll_0)
            == sketch::hll_precision(*before->Hll_0),
{
}

/// A search is fused only where it asks for it, embeddings are configured, and its text could
/// be embedded; for a fusion there are as many candidates again as hits are asked for.
pub proof fn law_fusion_needs_all_three(hybrid: bool, configured: bool, embedded: bool, k: nat)
    ensures
        ranking_for(true, true, true) is Fused,
        !hybrid ==> ranking_for(hybrid, configured, embedded) is Text,
        !configured ==> ranking_for(hybrid, configured, embedded) is Text,
        !embedded ==> ranking_for(hybrid, configured, embedded) is Text,
        candidates_for(k) == k + k,
{
}

} // verus!
