//! Sketches as they are stored: a tag byte for the kind, then a JSON payload, so that stored
//! bytes tell by themselves what they hold.

use std::collections::BTreeMap;

use serde_json::Value;
use sketches_ddsketch::DDSketch;

use vstd::prelude::*;

use crate::decimal;
use crate::decimal::decimal_text;
use crate::keycodec::bytes_from;
use crate::rollup::sketch;
use crate::rollup::sketch::{FieldSketch, RollupKind};
use crate::rollup::space_saving::SpaceSaving;
use crate::strmap;
use crate::strmap::StrMap;
use crate::text::concat;

verus! {

/// Why stored bytes are no sketch.
#[derive(Debug, PartialEq)]
pub enum SketchError {
    Empty,
    UnknownTag(u8),
    /// The payload cannot be read, and why.
    Payload(String),
    /// A top-k sketch that has no room.
    NoRoom,
}

/// The contents of a `SketchError`.
pub enum Unreadable {
    Empty,
    UnknownTag(u8),
    Payload(Seq<char>),
    NoRoom,
}

impl View for SketchError {
    type V = Unreadable;

    open spec fn view(&self) -> Unreadable {
        match self {
            SketchError::Empty => Unreadable::Empty,
            SketchError::UnknownTag(tag) => Unreadable::UnknownTag(*tag),
            SketchError::Payload(why) => Unreadable::Payload(why@),
            SketchError::NoRoom => Unreadable::NoRoom,
        }
    }
}

pub open spec fn sketch_error_text(e: Unreadable) -> Seq<char> {
    match e {
        Unreadable::Empty => "empty sketch payload"@,
        Unreadable::UnknownTag(tag) => "unknown rollup sketch tag "@ + decimal::decimal(
            tag as nat,
        ),
        Unreadable::Payload(why) => why,
        Unreadable::NoRoom => "stored top-k sketch has no capacity"@,
    }
}

impl SketchError {
    /// The error in words.
    pub fn message(&self) -> (r: String)
        ensures
            r@ == sketch_error_text(self@),
    {
        match self {
            SketchError::Empty => "empty sketch payload".to_string(),
            SketchError::UnknownTag(tag) => concat(
                "unknown rollup sketch tag ",
                decimal_text(*tag as u64).as_str(),
            ),
            SketchError::Payload(why) => why.as_str().to_string(),
            SketchError::NoRoom => "stored top-k sketch has no capacity".to_string(),
        }
    }
}

/// The byte that marks a stored sketch's kind.
pub open spec fn tag_of(kind: RollupKind) -> u8 {
    match kind {
        RollupKind::Exact => 0,
        RollupKind::Hll => 1,
        RollupKind::TopK => 2,
        RollupKind::DDSketch => 3,
    }
}

/// The kind that a byte marks.
pub open spec fn kind_of_tag(tag: u8) -> Option<RollupKind> {
    if tag == 0 {
        Some(RollupKind::Exact)
    } else if tag == 1 {
        Some(RollupKind::Hll)
    } else if tag == 2 {
        Some(RollupKind::TopK)
    } else if tag == 3 {
        Some(RollupKind::DDSketch)
    } else {
        None
    }
}

/// A stored sketch: its tag, then its payload.
pub open spec fn framed(kind: RollupKind, payload: Seq<u8>) -> Seq<u8> {
    seq![tag_of(kind)] + payload
}

/// The kind and payload of a stored sketch.
pub open spec fn unframed(bytes: Seq<u8>) -> Result<(RollupKind, Seq<u8>), Unreadable> {
    if bytes.len() == 0 {
        Err(Unreadable::Empty)
    } else {
        match kind_of_tag(bytes[0]) {
            Some(kind) => Ok((kind, bytes.skip(1))),
            None => Err(Unreadable::UnknownTag(bytes[0])),
        }
    }
}

/// Puts the tag of a kind in front of a payload.
pub fn frame(kind: RollupKind, payload: Vec<u8>) -> (r: Vec<u8>)
    ensures
        r@ == framed(kind, payload@),
{
    let tag: u8 = match kind {
        RollupKind::Exact => 0,
        RollupKind::Hll => 1,
        RollupKind::TopK => 2,
        RollupKind::DDSketch => 3,
    };
    let mut out: Vec<u8> = Vec::new();
    let mut rest: Vec<u8> = payload;
    out.push(tag);
    out.append(&mut rest);
    assert(out@ =~= framed(kind, payload@));
    out
}

/// Takes the tag off a stored sketch.
pub fn unframe(bytes: &[u8]) -> (r: Result<(RollupKind, Vec<u8>), SketchError>)
    ensures
        match r {
            Ok((kind, payload)) => unframed(bytes@) == Ok::<(RollupKind, Seq<u8>), Unreadable>(
                (kind, payload@),
            ),
            Err(e) => unframed(bytes@) == Err::<(RollupKind, Seq<u8>), Unreadable>(e@),
        },
{
    if bytes.len() == 0 {
        return Err(SketchError::Empty);
    }
    let tag: u8 = bytes[0];
    let payload: Vec<u8> = bytes_from(bytes, 1);
    if tag == 0 {
        Ok((RollupKind::Exact, payload))
    } else if tag == 1 {
        Ok((RollupKind::Hll, payload))
    } else if tag == 2 {
        Ok((RollupKind::TopK, payload))
    } else if tag == 3 {
        Ok((RollupKind::DDSketch, payload))
    } else {
        Err(SketchError::UnknownTag(tag))
    }
}

// ---- payloads ----

/// The names and counts of a list.
pub open spec fn count_views(pairs: Seq<(String, u64)>) -> Seq<(Seq<char>, u64)> {
    pairs.map_values(|e: (String, u64)| (e.0@, e.1))
}

/// A payload that is read as `x`.
pub open spec fn readable<T>(x: T) -> Result<T, Seq<char>> {
    Ok(x)
}

/// What `serde_json` reads as counts by name, or what is wrong with it.
pub uninterp spec fn counts_json(bytes: Seq<u8>) -> Result<Map<Seq<char>, u64>, Seq<char>>;

/// What `serde_json` writes for counts by name.
pub uninterp spec fn counts_bytes(counts: Map<Seq<char>, u64>) -> Seq<u8>;

/// `serde_json::from_slice` to a `BTreeMap` of counts, listed by ascending name: it depends
/// on the bytes alone, as does what is wrong with them.
#[verifier::external_body]
fn read_counts(bytes: &[u8]) -> (r: Result<Vec<(String, u64)>, String>)
    ensures
        match r {
            Ok(pairs) => strmap::ascending(count_views(pairs@)) && counts_json(bytes@) == Ok::<
                Map<Seq<char>, u64>,
                Seq<char>,
            >(strmap::map_of(count_views(pairs@))),
            Err(e) => counts_json(bytes@) == Err::<Map<Seq<char>, u64>, Seq<char>>(e@),
        },
{
    let counts: Result<BTreeMap<String, u64>, serde_json::Error> = serde_json::from_slice(bytes);
    counts.map(|c| c.into_iter().collect()).map_err(|e| e.to_string())
}

/// `serde_json::to_vec` of a `BTreeMap` of counts: what it writes depends on the counts
/// alone and is read back as them.
#[verifier::external_body]
fn write_counts(pairs: Vec<(String, u64)>) -> (r: Vec<u8>)
    requires
        strmap::ascending(count_views(pairs@)),
    ensures
        r@ == counts_bytes(strmap::map_of(count_views(pairs@))),
        counts_json(r@) == readable(strmap::map_of(count_views(pairs@))),
{
    let counts: BTreeMap<String, u64> = pairs.into_iter().collect();
    serde_json::to_vec(&counts).unwrap_or_default()
}

/// What `serde_json` reads as a capacity and counts by name, or what is wrong with it.
pub uninterp spec fn topk_json(bytes: Seq<u8>) -> Result<
    (nat, Map<Seq<char>, u64>),
    Seq<char>,
>;

/// What `serde_json` writes for a capacity and counts by name.
pub uninterp spec fn topk_bytes(capacity: nat, counts: Map<Seq<char>, u64>) -> Seq<u8>;

/// `serde_json::from_slice` to an object and `serde_json::from_value` of its members
/// `capacity` and `counts`, the counts listed by ascending name: it depends on the bytes
/// alone, as does what is wrong with them.
#[verifier::external_body]
fn read_topk(bytes: &[u8]) -> (r: Result<(usize, Vec<(String, u64)>), String>)
    ensures
        match r {
            Ok((capacity, pairs)) => strmap::ascending(count_views(pairs@)) && topk_json(bytes@)
                == Ok::<(nat, Map<Seq<char>, u64>), Seq<char>>(
                (capacity as nat, strmap::map_of(count_views(pairs@))),
            ),
            Err(e) => topk_json(bytes@) == Err::<(nat, Map<Seq<char>, u64>), Seq<char>>(e@),
        },
{
    let text = |e: serde_json::Error| e.to_string();
    let mut top: BTreeMap<String, Value> = serde_json::from_slice(bytes).map_err(text)?;
    let capacity = top.remove("capacity").unwrap_or_default();
    let counts = top.remove("counts").unwrap_or_default();
    let counts: BTreeMap<String, u64> = serde_json::from_value(counts).map_err(text)?;
    let capacity: usize = serde_json::from_value(capacity).map_err(text)?;
    Ok((capacity, counts.into_iter().collect()))
}

/// `serde_json::to_vec` of an object with the members `capacity` and `counts`: what it
/// writes depends on the two alone and is read back as them.
#[verifier::external_body]
fn write_topk(capacity: usize, pairs: Vec<(String, u64)>) -> (r: Vec<u8>)
    requires
        strmap::ascending(count_views(pairs@)),
    ensures
        r@ == topk_bytes(capacity as nat, strmap::map_of(count_views(pairs@))),
        topk_json(r@) == readable((capacity as nat, strmap::map_of(count_views(pairs@)))),
{
    let counts: Value = pairs.into_iter().collect();
    let top = BTreeMap::from([("capacity", Value::from(capacity)), ("counts", counts)]);
    serde_json::to_vec(&top).unwrap_or_default()
}

/// The contents of a DDSketch: its bins, its count, its least and greatest value, its
/// configuration, and whether its parts fit together.
pub open spec fn dd_contents(d: DDSketch) -> (Seq<u64>, u64, (u64, u64), int, bool) {
    (
        sketch::dd_bins(d),
        sketch::dd_count(d),
        sketch::dd_extremes(d),
        sketch::dd_config(d),
        sketch::dd_sound(d),
    )
}

/// The contents that `serde_json` reads as a DDSketch, or what is wrong with it.
pub uninterp spec fn dd_json(bytes: Seq<u8>) -> Result<
    (Seq<u64>, u64, (u64, u64), int, bool),
    Seq<char>,
>;

/// What `serde_json` writes for a DDSketch.
pub uninterp spec fn dd_bytes(d: DDSketch) -> Seq<u8>;

/// The least and the greatest value of a DDSketch and the sum of its values are finite.
pub uninterp spec fn dd_finite(d: DDSketch) -> bool;

/// `serde_json::from_slice` to a `DDSketch`: its contents depend on the bytes alone, as does
/// what is wrong with them. It does not test that the parts fit together.
#[verifier::external_body]
fn read_ddsketch(bytes: &[u8]) -> (r: Result<Box<DDSketch>, String>)
    ensures
        match r {
            Ok(d) => dd_json(bytes@) == Ok::<
                (Seq<u64>, u64, (u64, u64), int, bool),
                Seq<char>,
            >(dd_contents(*d)),
            Err(e) => dd_json(bytes@) == Err::<
                (Seq<u64>, u64, (u64, u64), int, bool),
                Seq<char>,
            >(e@),
        },
{
    serde_json::from_slice(bytes).map(Box::new).map_err(|e| e.to_string())
}

/// `serde_json::to_vec` of a `DDSketch`: what it writes depends on the sketch alone and is
/// read back as its contents, unless a number in it is not finite: JSON has no word for
/// that, so such a sketch is not read back.
#[verifier::external_body]
fn write_ddsketch(d: &Box<DDSketch>) -> (r: Vec<u8>)
    ensures
        r@ == dd_bytes(**d),
        (dd_json(r@) is Ok) == dd_finite(**d),
        dd_json(r@) matches Ok(c) ==> c == dd_contents(**d),
{
    serde_json::to_vec(d.as_ref()).unwrap_or_default()
}

// ---- stored sketches ----

/// What stored bytes hold.
pub enum Contents {
    Exact(Map<Seq<char>, u64>),
    /// The payload of a HyperLogLog++ sketch.
    Hll(Seq<u8>),
    TopK(nat, Map<Seq<char>, u64>),
    DDSketch((Seq<u64>, u64, (u64, u64), int, bool)),
}

/// What stored bytes hold, or why they are no sketch.
pub open spec fn decoded(bytes: Seq<u8>) -> Result<Contents, Unreadable> {
    match unframed(bytes) {
        Err(e) => Err(e),
        Ok((RollupKind::Exact, payload)) => match counts_json(payload) {
            Ok(counts) => Ok(Contents::Exact(counts)),
            Err(why) => Err(Unreadable::Payload(why)),
        },
        Ok((RollupKind::Hll, payload)) => Ok(Contents::Hll(payload)),
        Ok((RollupKind::TopK, payload)) => match topk_json(payload) {
            Ok((capacity, counts)) => if capacity == 0 {
                Err(Unreadable::NoRoom)
            } else {
                Ok(Contents::TopK(capacity, counts))
            },
            Err(why) => Err(Unreadable::Payload(why)),
        },
        Ok((RollupKind::DDSketch, payload)) => match dd_json(payload) {
            Ok(contents) => Ok(Contents::DDSketch(contents)),
            Err(why) => Err(Unreadable::Payload(why)),
        },
    }
}

/// The contents of a sketch that is no HyperLogLog++ sketch.
pub open spec fn contents_of(s: FieldSketch) -> Contents {
    match s {
        FieldSketch::Exact(counts) => Contents::Exact(counts@),
        FieldSketch::Hll(_) => Contents::Hll(seq![]),
        FieldSketch::TopK(top) => Contents::TopK(top.room(), top@),
        FieldSketch::DDSketch(d) => Contents::DDSketch(dd_contents(*d)),
    }
}

/// `bytes` is what is stored for that sketch, and holds it: what was stored is read back as
/// it was. A DDSketch with a number that is not finite is not read back.
pub open spec fn is_stored(s: FieldSketch, bytes: Seq<u8>) -> bool {
    match s {
        FieldSketch::Exact(counts) => {
            &&& bytes == framed(RollupKind::Exact, counts_bytes(counts@))
            &&& decoded(bytes) == Ok::<Contents, Unreadable>(contents_of(s))
        },
        FieldSketch::Hll(_) => false,
        FieldSketch::TopK(top) => {
            &&& bytes == framed(RollupKind::TopK, topk_bytes(top.room(), top@))
            &&& top.room() > 0 ==> decoded(bytes) == Ok::<Contents, Unreadable>(contents_of(s))
        },
        FieldSketch::DDSketch(d) => {
            &&& bytes == framed(RollupKind::DDSketch, dd_bytes(*d))
            &&& if dd_finite(*d) {
                decoded(bytes) == Ok::<Contents, Unreadable>(contents_of(s))
            } else {
                decoded(bytes) is Err
            }
        },
    }
}

/// A stored sketch, read. The payload of a HyperLogLog++ sketch is handed on as it is.
pub enum Decoded {
    Sketch(FieldSketch),
    Hll(Vec<u8>),
}

fn listed(counts: &StrMap<u64>) -> (r: Vec<(String, u64)>)
    ensures
        strmap::ascending(count_views(r@)),
        strmap::map_of(count_views(r@)) == counts@,
{
    let n: usize = counts.len();
    let ghost all = strmap::listing(counts@);
    let mut out: Vec<(String, u64)> = Vec::new();
    let mut i: usize = 0;
    while i < n
        invariant
            i <= n,
            n == all.len(),
            all == strmap::listing(counts@),
            count_views(out@) == all.take(i as int),
        decreases n - i,
    {
        let (name, count) = counts.at(i);
        let ghost before = out@;
        out.push((name.as_str().to_string(), *count));
        assert(count_views(out@) =~= count_views(before).push(all[i as int]));
        assert(all.take(i + 1) =~= all.take(i as int).push(all[i as int]));
        i = i + 1;
    }
    proof {
        assert(all.take(i as int) =~= all);
        strmap::lemma_map_of(all);
        strmap::lemma_same_listing(all, strmap::map_of(all), counts@);
    }
    out
}

fn counts_from(pairs: Vec<(String, u64)>) -> (r: StrMap<u64>)
    requires
        strmap::ascending(count_views(pairs@)),
    ensures
        r@ == strmap::map_of(count_views(pairs@)),
{
    let ghost all = count_views(pairs@);
    let mut counts: StrMap<u64> = StrMap::new();
    proof {
        strmap::lemma_map_of(all);
        crate::order::lemma_text_order_total();
    }
    for e in it: pairs.into_iter()
        invariant
            it.seq() == pairs@,
            all == count_views(pairs@),
            strmap::ascending(all),
            strmap::is_listing(all, strmap::map_of(all)),
            forall|k: Seq<char>| #[trigger]
                counts@.dom().contains(k) <==> strmap::lists(all.take(it.index()), k),
            forall|k: Seq<char>| #[trigger]
                counts@.dom().contains(k) ==> counts@[k] == strmap::map_of(all)[k],
    {
        let ghost i = it.index();
        assert(all[i] == (e.0@, e.1));
        proof {
            strmap::lemma_lists_step(all, i);
            assert(strmap::map_of(all).dom().contains(all[i].0));
        }
        counts.insert(e.0, e.1);
    }
    proof {
        assert(all.take(all.len() as int) =~= all);
        assert forall|k: Seq<char>| #[trigger] counts@.dom().contains(k) == strmap::map_of(
            all,
        ).dom().contains(k) by {}
        assert(counts@ =~= strmap::map_of(all));
    }
    counts
}

impl FieldSketch {
    /// The stored form of the sketch: its tag, then its payload. `None` for a HyperLogLog++
    /// sketch, whose payload is written where its hasher is known to the format.
    pub fn to_bytes(&self) -> (r: Option<Vec<u8>>)
        ensures
            (r is None) == (self is Hll),
            r matches Some(bytes) ==> is_stored(*self, bytes@),
    {
        match self {
            FieldSketch::Exact(counts) => {
                let payload: Vec<u8> = write_counts(listed(counts));
                let ghost written = payload@;
                let out: Vec<u8> = frame(RollupKind::Exact, payload);
                assert(out@.skip(1) =~= written);
                Some(out)
            },
            FieldSketch::Hll(_) => None,
            FieldSketch::TopK(top) => {
                let payload: Vec<u8> = write_topk(top.capacity(), listed(top.counts()));
                let ghost written = payload@;
                let out: Vec<u8> = frame(RollupKind::TopK, payload);
                assert(out@.skip(1) =~= written);
                Some(out)
            },
            FieldSketch::DDSketch(d) => {
                let payload: Vec<u8> = write_ddsketch(d);
                let ghost written = payload@;
                let out: Vec<u8> = frame(RollupKind::DDSketch, payload);
                assert(out@.skip(1) =~= written);
                Some(out)
            },
        }
    }

    /// Reads a stored sketch.
    pub fn from_bytes(bytes: &[u8]) -> (r: Result<Decoded, SketchError>)
        ensures
            match r {
                Ok(Decoded::Sketch(s)) => !(s is Hll) && decoded(bytes@) == Ok::<
                    Contents,
                    Unreadable,
                >(contents_of(s)),
                Ok(Decoded::Hll(payload)) => decoded(bytes@) == Ok::<Contents, Unreadable>(
                    Contents::Hll(payload@),
                ),
                Err(e) => decoded(bytes@) == Err::<Contents, Unreadable>(e@),
            },
    {
        let (kind, payload): (RollupKind, Vec<u8>) = match unframe(bytes) {
            Ok(parts) => parts,
            Err(e) => {
                return Err(e);
            },
        };
        match kind {
            RollupKind::Exact => match read_counts(&payload) {
                Ok(pairs) => Ok(Decoded::Sketch(FieldSketch::Exact(counts_from(pairs)))),
                Err(why) => Err(SketchError::Payload(why)),
            },
            RollupKind::Hll => Ok(Decoded::Hll(payload)),
            RollupKind::TopK => match read_topk(&payload) {
                Ok((capacity, pairs)) => if capacity == 0 {
                    Err(SketchError::NoRoom)
                } else {
                    Ok(
                        Decoded::Sketch(
                            FieldSketch::TopK(
                                SpaceSaving::from_parts(capacity, counts_from(pairs)),
                            ),
                        ),
                    )
                },
                Err(why) => Err(SketchError::Payload(why)),
            },
            RollupKind::DDSketch => match read_ddsketch(&payload) {
                Ok(d) => Ok(Decoded::Sketch(FieldSketch::DDSketch(d))),
                Err(why) => Err(SketchError::Payload(why)),
            },
        }
    }
}

/// Stored bytes tell by themselves what they hold: bytes of different kinds differ, and a
/// frame gives back the kind and payload that were put into it.
pub proof fn law_frame_round_trip(kind: RollupKind, payload: Seq<u8>)
    ensures
        unframed(framed(kind, payload)) == Ok::<(RollupKind, Seq<u8>), Unreadable>(
            (kind, payload),
        ),
{
    assert(framed(kind, payload).skip(1) =~= payload);
}

/// What is stored for a sketch is read back as that sketch, in kind and contents, and as a
/// sound one where it was sound. Left out are top-k sketches without room and DDSketches
/// with a number that is not finite.
pub proof fn law_stored_sketch_is_read_back(s: FieldSketch, bytes: Seq<u8>, read: FieldSketch)
    requires
        is_stored(s, bytes),
        s.sound(),
        s matches FieldSketch::DDSketch(d) ==> dd_finite(*d),
        !(read is Hll),
        decoded(bytes) == Ok::<Contents, Unreadable>(contents_of(read)),
    ensures
        contents_of(read) == contents_of(s),
        read.kind_spec() == s.kind_spec(),
        read.sound(),
        unframed(bytes) matches Ok((kind, _)) && kind == s.kind_spec(),
{
    assert(contents_of(read) == contents_of(s));
}

/// The first byte of a stored sketch tells its kind: zero for exact counts, one for a
/// HyperLogLog++, two for a top-k sketch, three for a DDSketch. Any other is named in the
/// refusal, and nothing is no sketch.
pub proof fn law_first_byte_tells_the_kind(payload: Seq<u8>, tag: u8)
    ensures
        framed(RollupKind::Exact, payload) == seq![0u8] + payload,
        framed(RollupKind::Hll, payload) == seq![1u8] + payload,
        framed(RollupKind::TopK, payload) == seq![2u8] + payload,
        framed(RollupKind::DDSketch, payload) == seq![3u8] + payload,
        unframed(seq![0u8] + payload) == Ok::<(RollupKind, Seq<u8>), Unreadable>(
            (RollupKind::Exact, payload),
        ),
        unframed(seq![1u8] + payload) == Ok::<(RollupKind, Seq<u8>), Unreadable>(
            (RollupKind::Hll, payload),
        ),
        unframed(seq![2u8] + payload) == Ok::<(RollupKind, Seq<u8>), Unreadable>(
            (RollupKind::TopK, payload),
        ),
        unframed(seq![3u8] + payload) == Ok::<(RollupKind, Seq<u8>), Unreadable>(
            (RollupKind::DDSketch, payload),
        ),
        tag > 3 ==> unframed(seq![tag] + payload) == Err::<(RollupKind, Seq<u8>), Unreadable>(
            Unreadable::UnknownTag(tag),
        ),
        unframed(Seq::<u8>::empty()) == Err::<(RollupKind, Seq<u8>), Unreadable>(Unreadable::Empty),
{
    assert((seq![0u8] + payload).skip(1) =~= payload);
    assert((seq![1u8] + payload).skip(1) =~= payload);
    assert((seq![2u8] + payload).skip(1) =~= payload);
    assert((seq![3u8] + payload).skip(1) =~= payload);
}

/// What is behind the first byte is read as the kind says, whole and as it is; a payload
/// that cannot be read is refused with the reason, and so is a top-k sketch without room.
pub proof fn law_payloads_are_read(payload: Seq<u8>)
    ensures
        counts_json(payload) is Ok ==> decoded(seq![0u8] + payload) == Ok::<Contents, Unreadable>(
            Contents::Exact(counts_json(payload)->Ok_0),
        ),
        counts_json(payload) is Err ==> decoded(seq![0u8] + payload) == Err::<Contents, Unreadable>(
            Unreadable::Payload(counts_json(payload)->Err_0),
        ),
        decoded(seq![1u8] + payload) == Ok::<Contents, Unreadable>(Contents::Hll(payload)),
        topk_json(payload) is Ok && (topk_json(payload)->Ok_0).0 > 0 ==> decoded(
            seq![2u8] + payload,
        ) == Ok::<Contents, Unreadable>(
            Contents::TopK((topk_json(payload)->Ok_0).0, (topk_json(payload)->Ok_0).1),
        ),
        topk_json(payload) is Ok && (topk_json(payload)->Ok_0).0 == 0 ==> decoded(
            seq![2u8] + payload,
        ) == Err::<Contents, Unreadable>(Unreadable::NoRoom),
        topk_json(payload) is Err ==> decoded(seq![2u8] + payload) == Err::<Contents, Unreadable>(
            Unreadable::Payload(topk_json(payload)->Err_0),
        ),
        dd_json(payload) is Ok ==> decoded(seq![3u8] + payload) == Ok::<Contents, Unreadable>(
            Contents::DDSketch(dd_json(payload)->Ok_0),
        ),
        dd_json(payload) is Err ==> decoded(seq![3u8] + payload) == Err::<Contents, Unreadable>(
            Unreadable::Payload(dd_json(payload)->Err_0),
        ),
{
    law_first_byte_tells_the_kind(payload, 4);
}

/// What is stored of a sketch holds it: the counts of an exact one, the room and the counts
/// of a top-k one, the bins, count, extremes and configuration of a DDSketch.
pub proof fn law_stored_bytes_hold_the_sketch(s: FieldSketch, bytes: Seq<u8>)
    requires
        is_stored(s, bytes),
    ensures
        s is Exact ==> decoded(bytes) == Ok::<Contents, Unreadable>(
            Contents::Exact(s->Exact_0@),
        ) && bytes[0] == 0,
        s is TopK && s->TopK_0.room() > 0 ==> decoded(bytes) == Ok::<Contents, Unreadable>(
            Contents::TopK(s->TopK_0.room(), s->TopK_0@),
        ) && bytes[0] == 2,
        s is DDSketch && dd_finite(*s->DDSketch_0) ==> decoded(bytes) is Ok && decoded(bytes)->Ok_0
            is DDSketch && (decoded(bytes)->Ok_0->DDSketch_0).0 == sketch::dd_bins(*s->DDSketch_0)
            && (decoded(bytes)->Ok_0->DDSketch_0).1 == sketch::dd_count(*s->DDSketch_0) && (decoded(
            bytes,
        )->Ok_0->DDSketch_0).2 == sketch::dd_extremes(*s->DDSketch_0) && (decoded(
            bytes,
        )->Ok_0->DDSketch_0).3 == sketch::dd_config(*s->DDSketch_0) && bytes[0] == 3,
        !(s is Hll),
{
}

/// Why stored bytes are no sketch, in words: an unknown first byte is named, and what is
/// wrong with a payload is told as it was found.
pub proof fn law_unreadable_sketches_in_words(tag: u8, why: Seq<char>)
    ensures
        sketch_error_text(Unreadable::Empty) == "empty sketch payload"@,
        sketch_error_text(Unreadable::UnknownTag(tag)) == "unknown rollup sketch tag "@
            + decimal::decimal(tag as nat),
        sketch_error_text(Unreadable::Payload(why)) == why,
        sketch_error_text(Unreadable::NoRoom) == "stored top-k sketch has no capacity"@,
{
}

} // verus!
