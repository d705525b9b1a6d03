//! Loki's push format: a `PushRequest` message, compressed with raw Snappy.
//!
//! `PushRequest { repeated Stream streams = 1 }`, `Stream { string labels = 1; repeated
//! Entry entries = 2 }`, `Entry { Timestamp timestamp = 1; string line = 2 }`, `Timestamp
//! { int64 seconds = 1; int32 nanos = 2 }`.

use vstd::prelude::*;

use crate::decimal;
use crate::decimal::decimal_text;
use crate::logql;
use crate::logql::parse_label_set;
use crate::proto;
use crate::proto::{
    pass_over, read_chunk, read_key, read_text, read_varint_field, MAX_NESTING,
};
use crate::strmap::FieldMap;
use crate::text;
use crate::text::{concat, concat3, quoted};

verus! {

/// The most bytes that a body may claim to decompress to.
pub const MAX_DECOMPRESSED_BYTES: usize = 64 * 1024 * 1024;

/// One stream: its labels, and its lines with their times.
#[derive(Debug, PartialEq)]
pub struct DecodedStream {
    pub labels: FieldMap,
    pub entries: Vec<(i64, String)>,
}

/// The contents of a `DecodedStream`.
#[verifier::ext_equal]
pub struct Stream {
    pub labels: Map<Seq<char>, Seq<char>>,
    pub entries: Seq<(i64, Seq<char>)>,
}

pub open spec fn entry_views(entries: Seq<(i64, String)>) -> Seq<(i64, Seq<char>)> {
    entries.map_values(|e: (i64, String)| (e.0, e.1@))
}

impl View for DecodedStream {
    type V = Stream;

    open spec fn view(&self) -> Stream {
        Stream { labels: self.labels.texts(), entries: entry_views(self.entries@) }
    }
}

/// Why a body is refused.
#[derive(Debug, PartialEq)]
pub enum LokiError {
    /// The Snappy header cannot be read, and why.
    Header(String),
    /// The body claims to decompress to that many bytes, which is over the limit.
    TooLarge(usize),
    /// The body does not decompress, and why.
    Decompress(String),
    /// The decompressed bytes are no push request. Where they fail is not told: the sender
    /// gets no more than a bad request.
    Protobuf,
    /// A stream's labels do not parse: the labels, and why.
    Labels(String, String),
}

/// The contents of a `LokiError`.
pub enum Refusal {
    Header(Seq<char>),
    TooLarge(nat),
    Decompress(Seq<char>),
    Protobuf,
    Labels(Seq<char>, Seq<char>),
}

impl View for LokiError {
    type V = Refusal;

    open spec fn view(&self) -> Refusal {
        match self {
            LokiError::Header(e) => Refusal::Header(e@),
            LokiError::TooLarge(n) => Refusal::TooLarge(*n as nat),
            LokiError::Decompress(e) => Refusal::Decompress(e@),
            LokiError::Protobuf => Refusal::Protobuf,
            LokiError::Labels(l, e) => Refusal::Labels(l@, e@),
        }
    }
}

pub open spec fn refusal_text(e: Refusal) -> Seq<char> {
    match e {
        Refusal::Header(why) => "invalid snappy header: "@ + why,
        Refusal::TooLarge(n) => "snappy payload claims "@ + decimal::decimal(n)
            + " decompressed bytes, exceeding the "@ + decimal::decimal(
            MAX_DECOMPRESSED_BYTES as nat,
        ) + " limit"@,
        Refusal::Decompress(why) => "snappy decompress failed: "@ + why,
        Refusal::Protobuf => "protobuf decode failed"@,
        Refusal::Labels(l, why) => "malformed stream labels "@ + text::debug_text(l) + ": "@
            + why,
    }
}

impl LokiError {
    /// The refusal in words.
    pub fn message(&self) -> (r: String)
        ensures
            r@ == refusal_text(self@),
    {
        match self {
            LokiError::Header(why) => concat("invalid snappy header: ", why.as_str()),
            LokiError::TooLarge(n) => {
                let claimed: String = decimal_text(*n as u64);
                let limit: String = decimal_text(MAX_DECOMPRESSED_BYTES as u64);
                let mut out: String = concat3(
                    "snappy payload claims ",
                    claimed.as_str(),
                    " decompressed bytes, exceeding the ",
                );
                out.append(limit.as_str());
                out.append(" limit");
                out
            },
            LokiError::Decompress(why) => concat("snappy decompress failed: ", why.as_str()),
            LokiError::Protobuf => "protobuf decode failed".to_string(),
            LokiError::Labels(l, why) => {
                let mut out: String = concat3(
                    "malformed stream labels ",
                    quoted(l.as_str()).as_str(),
                    ": ",
                );
                out.append(why.as_str());
                out
            },
        }
    }
}

/// The length that a Snappy header claims: a number of at most 32 bits in at most five
/// bytes; zero for no bytes at all.
pub open spec fn claimed_len(body: Seq<u8>) -> Option<nat> {
    if body.len() == 0 {
        Some(0)
    } else {
        match proto::leb128(body, 5) {
            Some((v, _)) if v <= u32::MAX => Some(v),
            _ => None,
        }
    }
}

/// What `snap` says of a header that cannot be read.
pub uninterp spec fn snappy_header_error(body: Seq<u8>) -> Seq<char>;

/// `snap::raw::decompress_len`: the length that the header claims, where the header can be
/// read; else what is wrong with it, which depends on the body alone.
#[verifier::external_body]
fn snappy_claim(body: &[u8]) -> (r: Result<usize, String>)
    ensures
        match r {
            Ok(n) => claimed_len(body@) == Some(n as nat),
            Err(e) => claimed_len(body@) is None && e@ == snappy_header_error(body@),
        },
{
    snap::raw::decompress_len(body).map_err(|e| e.to_string())
}

/// What a Snappy body decompresses to, or what is wrong with it.
pub uninterp spec fn snappy_bytes(body: Seq<u8>) -> Result<Seq<u8>, Seq<char>>;

/// `snap::raw::Decoder::decompress_vec`: what the body decompresses to, which is as long
/// as its header claims, or what is wrong with it. That much is allocated at once, so the
/// claim is bounded first.
#[verifier::external_body]
fn snappy_decompress(body: &[u8]) -> (r: Result<Vec<u8>, String>)
    requires
        claimed_len(body@) matches Some(n) && n <= MAX_DECOMPRESSED_BYTES,
    ensures
        match r {
            Ok(bytes) => snappy_bytes(body@) == Ok::<Seq<u8>, Seq<char>>(bytes@) && claimed_len(
                body@,
            ) == Some(bytes@.len()),
            Err(e) => snappy_bytes(body@) == Err::<Seq<u8>, Seq<char>>(e@),
        },
{
    snap::raw::Decoder::new().decompress_vec(body).map_err(|e| e.to_string())
}

/// A stream as it is on the wire.
pub struct RawStream {
    pub labels: String,
    pub entries: Vec<RawEntry>,
}

/// A line as it is on the wire.
pub struct RawEntry {
    pub seconds: i64,
    pub nanos: i32,
    pub line: String,
}

/// The contents of a `RawEntry`: seconds, nanoseconds and line.
pub type WireEntry = (i64, i32, Seq<char>);

/// The contents of a `RawStream`: labels and lines.
pub type WireStream = (Seq<char>, Seq<WireEntry>);

pub open spec fn raw_entries(entries: Seq<RawEntry>) -> Seq<WireEntry> {
    entries.map_values(|e: RawEntry| (e.seconds, e.nanos, e.line@))
}

pub open spec fn raw_streams(streams: Seq<RawStream>) -> Seq<WireStream> {
    streams.map_values(|s: RawStream| (s.labels@, raw_entries(s.entries@)))
}

/// A timestamp after the fields in `bytes`: seconds and nanoseconds. Later fields win.
pub open spec fn time_fields(bytes: Seq<u8>, t: (i64, i32)) -> Option<(i64, i32)>
    decreases bytes.len(),
{
    if bytes.len() == 0 {
        Some(t)
    } else {
        match proto::key_of(bytes) {
            None => None,
            Some((tag, wire, rest)) => if tag == 1 {
                match proto::varint_field(wire, rest) {
                    Some((v, after)) if after.len() < bytes.len() => time_fields(
                        after,
                        (v as i64, t.1),
                    ),
                    _ => None,
                }
            } else if tag == 2 {
                match proto::varint_field(wire, rest) {
                    Some((v, after)) if after.len() < bytes.len() => time_fields(
                        after,
                        (t.0, v as i32),
                    ),
                    _ => None,
                }
            } else {
                match proto::skipped(wire, tag, rest, (proto::MAX_NESTING - 3) as nat) {
                    Some(after) if after.len() < bytes.len() => time_fields(after, t),
                    _ => None,
                }
            },
        }
    }
}

/// A line after the fields in `bytes`. Later fields win; timestamps merge.
pub open spec fn entry_fields(bytes: Seq<u8>, e: WireEntry) -> Option<WireEntry>
    decreases bytes.len(),
{
    if bytes.len() == 0 {
        Some(e)
    } else {
        match proto::key_of(bytes) {
            None => None,
            Some((tag, wire, rest)) => if tag == 1 {
                match proto::chunk_field(wire, rest) {
                    Some((chunk, after)) if after.len() < bytes.len() => match time_fields(
                        chunk,
                        (e.0, e.1),
                    ) {
                        Some(t) => entry_fields(after, (t.0, t.1, e.2)),
                        None => None,
                    },
                    _ => None,
                }
            } else if tag == 2 {
                match proto::text_field(wire, rest) {
                    Some((line, after)) if after.len() < bytes.len() => entry_fields(
                        after,
                        (e.0, e.1, line),
                    ),
                    _ => None,
                }
            } else {
                match proto::skipped(wire, tag, rest, (proto::MAX_NESTING - 2) as nat) {
                    Some(after) if after.len() < bytes.len() => entry_fields(after, e),
                    _ => None,
                }
            },
        }
    }
}

/// A stream after the fields in `bytes`. Later labels win; lines add up.
pub open spec fn stream_fields(bytes: Seq<u8>, s: WireStream) -> Option<WireStream>
    decreases bytes.len(),
{
    if bytes.len() == 0 {
        Some(s)
    } else {
        match proto::key_of(bytes) {
            None => None,
            Some((tag, wire, rest)) => if tag == 1 {
                match proto::text_field(wire, rest) {
                    Some((labels, after)) if after.len() < bytes.len() => stream_fields(
                        after,
                        (labels, s.1),
                    ),
                    _ => None,
                }
            } else if tag == 2 {
                match proto::chunk_field(wire, rest) {
                    Some((chunk, after)) if after.len() < bytes.len() => match entry_fields(
                        chunk,
                        (0, 0, seq![]),
                    ) {
                        Some(e) => stream_fields(after, (s.0, s.1.push(e))),
                        None => None,
                    },
                    _ => None,
                }
            } else {
                match proto::skipped(wire, tag, rest, (proto::MAX_NESTING - 1) as nat) {
                    Some(after) if after.len() < bytes.len() => stream_fields(after, s),
                    _ => None,
                }
            },
        }
    }
}

/// The streams of a push request after the fields in `bytes`.
pub open spec fn push_fields(bytes: Seq<u8>, streams: Seq<WireStream>) -> Option<Seq<WireStream>>
    decreases bytes.len(),
{
    if bytes.len() == 0 {
        Some(streams)
    } else {
        match proto::key_of(bytes) {
            None => None,
            Some((tag, wire, rest)) => if tag == 1 {
                match proto::chunk_field(wire, rest) {
                    Some((chunk, after)) if after.len() < bytes.len() => match stream_fields(
                        chunk,
                        (seq![], seq![]),
                    ) {
                        Some(s) => push_fields(after, streams.push(s)),
                        None => None,
                    },
                    _ => None,
                }
            } else {
                match proto::skipped(wire, tag, rest, proto::MAX_NESTING as nat) {
                    Some(after) if after.len() < bytes.len() => push_fields(after, streams),
                    _ => None,
                }
            },
        }
    }
}

fn read_time(bytes: &[u8], seconds: i64, nanos: i32) -> (r: Option<(i64, i32)>)
    ensures
        r == time_fields(bytes@, (seconds, nanos)),
{
    let mut rest: &[u8] = bytes;
    let mut s: i64 = seconds;
    let mut n: i32 = nanos;
    while rest.len() > 0
        invariant
            time_fields(rest@, (s, n)) == time_fields(bytes@, (seconds, nanos)),
        decreases rest@.len(),
    {
        let (tag, wire, body): (u32, u8, &[u8]) = match read_key(rest) {
            Some(k) => k,
            None => {
                return None;
            },
        };
        if tag == 1 {
            match read_varint_field(wire, body) {
                Some((v, after)) => {
                    s = v as i64;
                    rest = after;
                },
                None => {
                    return None;
                },
            }
        } else if tag == 2 {
            match read_varint_field(wire, body) {
                Some((v, after)) => {
                    n = v as i32;
                    rest = after;
                },
                None => {
                    return None;
                },
            }
        } else {
            match pass_over(wire, tag, body, MAX_NESTING - 3) {
                Some(after) => {
                    rest = after;
                },
                None => {
                    return None;
                },
            }
        }
    }
    Some((s, n))
}

fn read_entry(bytes: &[u8]) -> (r: Option<RawEntry>)
    ensures
        match r {
            Some(e) => entry_fields(bytes@, (0, 0, seq![])) == Some((e.seconds, e.nanos, e.line@)),
            None => entry_fields(bytes@, (0, 0, seq![])) is None,
        },
{
    let mut rest: &[u8] = bytes;
    let mut entry: RawEntry = RawEntry { seconds: 0, nanos: 0, line: String::new() };
    assert(entry.line@ =~= seq![]);
    while rest.len() > 0
        invariant
            entry_fields(rest@, (entry.seconds, entry.nanos, entry.line@)) == entry_fields(
                bytes@,
                (0, 0, seq![]),
            ),
        decreases rest@.len(),
    {
        let (tag, wire, body): (u32, u8, &[u8]) = match read_key(rest) {
            Some(k) => k,
            None => {
                return None;
            },
        };
        if tag == 1 {
            match read_chunk(wire, body) {
                Some((chunk, after)) => match read_time(chunk, entry.seconds, entry.nanos) {
                    Some((s, n)) => {
                        entry = RawEntry { seconds: s, nanos: n, line: entry.line };
                        rest = after;
                    },
                    None => {
                        return None;
                    },
                },
                None => {
                    return None;
                },
            }
        } else if tag == 2 {
            match read_text(wire, body) {
                Some((line, after)) => {
                    entry = RawEntry { seconds: entry.seconds, nanos: entry.nanos, line };
                    rest = after;
                },
                None => {
                    return None;
                },
            }
        } else {
            match pass_over(wire, tag, body, MAX_NESTING - 2) {
                Some(after) => {
                    rest = after;
                },
                None => {
                    return None;
                },
            }
        }
    }
    Some(entry)
}

fn read_stream(bytes: &[u8]) -> (r: Option<RawStream>)
    ensures
        match r {
            Some(s) => stream_fields(bytes@, (seq![], seq![])) == Some(
                (s.labels@, raw_entries(s.entries@)),
            ),
            None => stream_fields(bytes@, (seq![], seq![])) is None,
        },
{
    let mut rest: &[u8] = bytes;
    let mut labels: String = String::new();
    let mut entries: Vec<RawEntry> = Vec::new();
    assert(labels@ =~= seq![]);
    assert(raw_entries(entries@) =~= seq![]);
    while rest.len() > 0
        invariant
            stream_fields(rest@, (labels@, raw_entries(entries@))) == stream_fields(
                bytes@,
                (seq![], seq![]),
            ),
        decreases rest@.len(),
    {
        let (tag, wire, body): (u32, u8, &[u8]) = match read_key(rest) {
            Some(k) => k,
            None => {
                return None;
            },
        };
        if tag == 1 {
            match read_text(wire, body) {
                Some((l, after)) => {
                    labels = l;
                    rest = after;
                },
                None => {
                    return None;
                },
            }
        } else if tag == 2 {
            match read_chunk(wire, body) {
                Some((chunk, after)) => match read_entry(chunk) {
                    Some(e) => {
                        let ghost before = entries@;
                        let ghost view = (e.seconds, e.nanos, e.line@);
                        entries.push(e);
                        assert(raw_entries(entries@) =~= raw_entries(before).push(view));
                        rest = after;
                    },
                    None => {
                        return None;
                    },
                },
                None => {
                    return None;
                },
            }
        } else {
            match pass_over(wire, tag, body, MAX_NESTING - 1) {
                Some(after) => {
                    rest = after;
                },
                None => {
                    return None;
                },
            }
        }
    }
    Some(RawStream { labels, entries })
}

/// Reads a push request.
pub fn read_push_request(bytes: &[u8]) -> (r: Option<Vec<RawStream>>)
    ensures
        match r {
            Some(s) => push_fields(bytes@, seq![]) == Some(raw_streams(s@)),
            None => push_fields(bytes@, seq![]) is None,
        },
{
    let mut rest: &[u8] = bytes;
    let mut streams: Vec<RawStream> = Vec::new();
    assert(raw_streams(streams@) =~= seq![]);
    while rest.len() > 0
        invariant
            push_fields(rest@, raw_streams(streams@)) == push_fields(bytes@, seq![]),
        decreases rest@.len(),
    {
        let (tag, wire, body): (u32, u8, &[u8]) = match read_key(rest) {
            Some(k) => k,
            None => {
                return None;
            },
        };
        if tag == 1 {
            match read_chunk(wire, body) {
                Some((chunk, after)) => match read_stream(chunk) {
                    Some(s) => {
                        let ghost before = streams@;
                        let ghost view = (s.labels@, raw_entries(s.entries@));
                        streams.push(s);
                        assert(raw_streams(streams@) =~= raw_streams(before).push(view));
                        rest = after;
                    },
                    None => {
                        return None;
                    },
                },
                None => {
                    return None;
                },
            }
        } else {
            match pass_over(wire, tag, body, MAX_NESTING) {
                Some(after) => {
                    rest = after;
                },
                None => {
                    return None;
                },
            }
        }
    }
    Some(streams)
}

/// A timestamp in nanoseconds, as 64-bit integers multiply and add: it wraps around.
pub open spec fn time_ns(seconds: i64, nanos: i32) -> i64 {
    seconds.wrapping_mul(1_000_000_000).wrapping_add(nanos as i64)
}

/// A timestamp in nanoseconds. Where it fits 64 bits, it is exact.
pub fn timestamp_ns(seconds: i64, nanos: i32) -> (r: i64)
    ensures
        r == time_ns(seconds, nanos),
        i64::MIN <= seconds * 1_000_000_000 <= i64::MAX && i64::MIN <= seconds * 1_000_000_000
            + nanos <= i64::MAX ==> r == seconds * 1_000_000_000 + nanos,
{
    seconds.wrapping_mul(1_000_000_000).wrapping_add(nanos as i64)
}

/// The lines of a stream with their times.
pub open spec fn decoded_entries(entries: Seq<WireEntry>) -> Seq<(i64, Seq<char>)> {
    entries.map_values(|e: WireEntry| (time_ns(e.0, e.1), e.2))
}

/// The streams of a push request, or the refusal of the first whose labels do not parse.
pub open spec fn decoded_streams(streams: Seq<WireStream>) -> Result<Seq<Stream>, Refusal>
    decreases streams.len(),
{
    if streams.len() == 0 {
        Ok(seq![])
    } else {
        match decoded_streams(streams.drop_last()) {
            Err(e) => Err(e),
            Ok(done) => match logql::label_set_of(streams.last().0) {
                Err(why) => Err(Refusal::Labels(streams.last().0, why)),
                Ok(labels) => Ok(
                    done.push(Stream { labels, entries: decoded_entries(streams.last().1) }),
                ),
            },
        }
    }
}

/// What a body decodes to.
pub open spec fn push_of(body: Seq<u8>) -> Result<Seq<Stream>, Refusal> {
    match claimed_len(body) {
        None => Err(Refusal::Header(snappy_header_error(body))),
        Some(n) => if n > MAX_DECOMPRESSED_BYTES {
            Err(Refusal::TooLarge(n))
        } else {
            match snappy_bytes(body) {
                Err(why) => Err(Refusal::Decompress(why)),
                Ok(bytes) => match push_fields(bytes, seq![]) {
                    None => Err(Refusal::Protobuf),
                    Some(streams) => decoded_streams(streams),
                },
            }
        },
    }
}

pub open spec fn stream_views(streams: Seq<DecodedStream>) -> Seq<Stream> {
    streams.map_values(|s: DecodedStream| s@)
}

proof fn lemma_refusal_stays(streams: Seq<WireStream>, i: int)
    requires
        0 <= i <= streams.len(),
        decoded_streams(streams.take(i)) is Err,
    ensures
        decoded_streams(streams) == decoded_streams(streams.take(i)),
    decreases streams.len() - i,
{
    if i == streams.len() {
        assert(streams.take(i) =~= streams);
    } else {
        assert(streams.take(i + 1).drop_last() =~= streams.take(i));
        lemma_refusal_stays(streams, i + 1);
    }
}

fn decode_entries(entries: &Vec<RawEntry>) -> (r: Vec<(i64, String)>)
    ensures
        entry_views(r@) == decoded_entries(raw_entries(entries@)),
{
    let mut out: Vec<(i64, String)> = Vec::new();
    let mut i: usize = 0;
    while i < entries.len()
        invariant
            i <= entries@.len(),
            out@.len() == i,
            forall|j: int|
                0 <= j < i ==> (#[trigger] out@[j]).0 == time_ns(
                    entries@[j].seconds,
                    entries@[j].nanos,
                ) && out@[j].1@ == entries@[j].line@,
        decreases entries.len() - i,
    {
        let e: &RawEntry = &entries[i];
        out.push((timestamp_ns(e.seconds, e.nanos), e.line.as_str().to_string()));
        i = i + 1;
    }
    assert(entry_views(out@) =~= decoded_entries(raw_entries(entries@)));
    out
}

/// Decodes the streams of a push request that was read.
pub fn decode_streams(streams: &Vec<RawStream>) -> (r: Result<Vec<DecodedStream>, LokiError>)
    ensures
        match r {
            Ok(s) => decoded_streams(raw_streams(streams@)) == Ok::<Seq<Stream>, Refusal>(
                stream_views(s@),
            ),
            Err(e) => decoded_streams(raw_streams(streams@)) == Err::<Seq<Stream>, Refusal>(e@),
        },
{
    let ghost all = raw_streams(streams@);
    let mut out: Vec<DecodedStream> = Vec::new();
    let mut i: usize = 0;
    assert(stream_views(out@) =~= seq![]);
    while i < streams.len()
        invariant
            i <= streams@.len(),
            all == raw_streams(streams@),
            decoded_streams(all.take(i as int)) == Ok::<Seq<Stream>, Refusal>(
                stream_views(out@),
            ),
        decreases streams.len() - i,
    {
        let s: &RawStream = &streams[i];
        assert(all.take(i + 1).drop_last() =~= all.take(i as int));
        assert(all.take(i + 1).last() == (s.labels@, raw_entries(s.entries@)));
        match parse_label_set(s.labels.as_str()) {
            Err(why) => {
                proof {
                    lemma_refusal_stays(all, i + 1);
                }
                return Err(LokiError::Labels(s.labels.as_str().to_string(), why));
            },
            Ok(labels) => {
                let ghost before = out@;
                let stream: DecodedStream = DecodedStream {
                    labels,
                    entries: decode_entries(&s.entries),
                };
                let ghost view = stream@;
                out.push(stream);
                assert(stream_views(out@) =~= stream_views(before).push(view));
            },
        }
        i = i + 1;
    }
    assert(all.take(i as int) =~= all);
    Ok(out)
}

/// Decodes the body of a push. The length that it claims is checked before anything is
/// allocated for it.
pub fn decode_push_request(body: &[u8]) -> (r: Result<Vec<DecodedStream>, LokiError>)
    ensures
        match r {
            Ok(s) => push_of(body@) == Ok::<Seq<Stream>, Refusal>(stream_views(s@)),
            Err(e) => push_of(body@) == Err::<Seq<Stream>, Refusal>(e@),
        },
{
    let claimed: usize = match snappy_claim(body) {
        Ok(n) => n,
        Err(why) => {
            return Err(LokiError::Header(why));
        },
    };
    if claimed > MAX_DECOMPRESSED_BYTES {
        return Err(LokiError::TooLarge(claimed));
    }
    let bytes: Vec<u8> = match snappy_decompress(body) {
        Ok(b) => b,
        Err(why) => {
            return Err(LokiError::Decompress(why));
        },
    };
    match read_push_request(&bytes) {
        Some(streams) => decode_streams(&streams),
        None => Err(LokiError::Protobuf),
    }
}

/// How a number is written: not at all where it is zero.
pub open spec fn written_number(tag: u32, v: u64) -> Seq<u8> {
    if v == 0 {
        seq![]
    } else {
        proto::number_bytes(tag, v)
    }
}

/// How a text is written: not at all where it is empty.
pub open spec fn written_text(tag: u32, s: Seq<char>) -> Seq<u8> {
    if s.len() == 0 {
        seq![]
    } else {
        proto::chunk_bytes(tag, vstd::utf8::encode_utf8(s))
    }
}

/// How a timestamp is written.
pub open spec fn written_time(seconds: i64, nanos: i32) -> Seq<u8> {
    written_number(1, seconds as u64) + written_number(2, (nanos as i64) as u64)
}

/// How a line is written.
pub open spec fn written_entry(e: WireEntry) -> Seq<u8> {
    proto::chunk_bytes(1, written_time(e.0, e.1)) + written_text(2, e.2)
}

/// How lines are written, one behind the other.
pub open spec fn written_entries(entries: Seq<WireEntry>) -> Seq<u8>
    decreases entries.len(),
{
    if entries.len() == 0 {
        seq![]
    } else {
        proto::chunk_bytes(2, written_entry(entries[0])) + written_entries(entries.drop_first())
    }
}

/// How a stream is written.
pub open spec fn written_stream(s: WireStream) -> Seq<u8> {
    written_text(1, s.0) + written_entries(s.1)
}

/// How a push request is written.
pub open spec fn written_push(streams: Seq<WireStream>) -> Seq<u8>
    decreases streams.len(),
{
    if streams.len() == 0 {
        seq![]
    } else {
        proto::chunk_bytes(1, written_stream(streams[0])) + written_push(streams.drop_first())
    }
}

#[verifier::rlimit(40)]
#[verifier::spinoff_prover]
proof fn lemma_written_time(seconds: i64, nanos: i32)
    ensures
        time_fields(written_time(seconds, nanos), (0, 0)) == Some((seconds, nanos)),
{
    let a = seconds as u64;
    let b = (nanos as i64) as u64;
    assert((seconds as u64) as i64 == seconds) by (bit_vector);
    assert(((nanos as i64) as u64) as i32 == nanos) by (bit_vector);
    assert(seconds as u64 == 0 ==> seconds == 0) by (bit_vector);
    assert((nanos as i64) as u64 == 0 ==> nanos == 0) by (bit_vector);
    let none = Seq::<u8>::empty();
    let second = written_number(2, b);
    assert(time_fields(second, (seconds, 0)) == Some((seconds, nanos))) by {
        if b != 0 {
            proto::law_number_round_trip(2, b, none);
            assert(second =~= proto::number_bytes(2, b) + none);
            assert(time_fields(none, (seconds, nanos)) == Some((seconds, nanos)));
        }
    }
    if a != 0 {
        proto::law_number_round_trip(1, a, second);
    } else {
        assert(written_time(seconds, nanos) =~= second);
    }
}

proof fn lemma_text_field(tag: u32, s: Seq<char>, rest: Seq<u8>)
    requires
        proto::is_tag(tag),
        vstd::utf8::encode_utf8(s).len() <= u64::MAX,
    ensures
        proto::key_of(proto::chunk_bytes(tag, vstd::utf8::encode_utf8(s)) + rest) matches Some(
            (t, wire, body),
        ) && t == tag && proto::text_field(wire, body) == Some((s, rest)),
        rest.len() < (proto::chunk_bytes(tag, vstd::utf8::encode_utf8(s)) + rest).len(),
{
    proto::law_chunk_round_trip(tag, vstd::utf8::encode_utf8(s), rest);
    vstd::utf8::encode_utf8_valid_utf8(s);
    vstd::utf8::encode_utf8_decode_utf8(s);
}

#[verifier::rlimit(40)]
#[verifier::spinoff_prover]
proof fn lemma_written_entry(e: WireEntry)
    requires
        written_entry(e).len() <= u64::MAX,
    ensures
        entry_fields(written_entry(e), (0, 0, seq![])) == Some(e),
{
    let none = Seq::<u8>::empty();
    let time = written_time(e.0, e.1);
    let line = written_text(2, e.2);
    lemma_written_time(e.0, e.1);
    assert(entry_fields(line, (e.0, e.1, seq![])) == Some(e)) by {
        if e.2.len() > 0 {
            lemma_text_field(2, e.2, none);
            assert(line =~= proto::chunk_bytes(2, vstd::utf8::encode_utf8(e.2)) + none);
            assert(entry_fields(none, e) == Some(e));
        } else {
            assert(e.2 =~= seq![]);
        }
    }
    proto::law_chunk_round_trip(1, time, line);
}

#[verifier::rlimit(40)]
#[verifier::spinoff_prover]
proof fn lemma_written_entries(labels: Seq<char>, done: Seq<WireEntry>, entries: Seq<WireEntry>)
    requires
        written_entries(entries).len() <= u64::MAX,
    ensures
        stream_fields(written_entries(entries), (labels, done)) == Some((labels, done + entries)),
    decreases entries.len(),
{
    if entries.len() == 0 {
        assert(done + entries =~= done);
    } else {
        let rest = written_entries(entries.drop_first());
        lemma_written_entry(entries[0]);
        proto::law_chunk_round_trip(2, written_entry(entries[0]), rest);
        lemma_written_entries(labels, done.push(entries[0]), entries.drop_first());
        assert(done.push(entries[0]) + entries.drop_first() =~= done + entries);
    }
}

#[verifier::rlimit(40)]
#[verifier::spinoff_prover]
proof fn lemma_written_stream(s: WireStream)
    requires
        written_stream(s).len() <= u64::MAX,
    ensures
        stream_fields(written_stream(s), (seq![], seq![])) == Some(s),
{
    let rest = written_entries(s.1);
    lemma_written_entries(s.0, seq![], s.1);
    assert(Seq::<WireEntry>::empty() + s.1 =~= s.1);
    if s.0.len() > 0 {
        lemma_text_field(1, s.0, rest);
    } else {
        assert(s.0 =~= seq![]);
        assert(written_stream(s) =~= rest);
    }
}

#[verifier::rlimit(40)]
#[verifier::spinoff_prover]
proof fn lemma_written_push(done: Seq<WireStream>, streams: Seq<WireStream>)
    requires
        written_push(streams).len() <= u64::MAX,
    ensures
        push_fields(written_push(streams), done) == Some(done + streams),
    decreases streams.len(),
{
    if streams.len() == 0 {
        assert(done + streams =~= done);
    } else {
        let rest = written_push(streams.drop_first());
        lemma_written_stream(streams[0]);
        proto::law_chunk_round_trip(1, written_stream(streams[0]), rest);
        lemma_written_push(done.push(streams[0]), streams.drop_first());
        assert(done.push(streams[0]) + streams.drop_first() =~= done + streams);
    }
}

/// A push request that was written is read back as it was, and a body that decompresses to
/// one gives its streams.
pub proof fn law_written_push_reads_back(streams: Seq<WireStream>, body: Seq<u8>)
    requires
        written_push(streams).len() <= u64::MAX,
        claimed_len(body) matches Some(n) && n <= MAX_DECOMPRESSED_BYTES,
        snappy_bytes(body) == Ok::<Seq<u8>, Seq<char>>(written_push(streams)),
    ensures
        push_fields(written_push(streams), seq![]) == Some(streams),
        push_of(body) == decoded_streams(streams),
{
    lemma_written_push(seq![], streams);
    assert(Seq::<WireStream>::empty() + streams =~= streams);
}

/// A body that claims too much is refused whatever follows its header.
pub proof fn law_oversized_claim_is_refused(body: Seq<u8>)
    requires
        claimed_len(body) matches Some(n) && n > MAX_DECOMPRESSED_BYTES,
    ensures
        push_of(body) == Err::<Seq<Stream>, Refusal>(Refusal::TooLarge(claimed_len(body)->0)),
{
}

/// Fields that are not known are passed over, wherever they stand; of a field that stands
/// more than once the later counts.
pub proof fn law_unknown_fields_change_nothing(
    tag: u32,
    chunk: Seq<u8>,
    rest: Seq<u8>,
    streams: Seq<WireStream>,
    s: WireStream,
    e: WireEntry,
    labels: Seq<char>,
    line: Seq<char>,
)
    requires
        proto::is_tag(tag),
        chunk.len() <= u64::MAX,
        vstd::utf8::encode_utf8(labels).len() <= u64::MAX,
        vstd::utf8::encode_utf8(line).len() <= u64::MAX,
    ensures
        tag != 1 ==> push_fields(proto::chunk_bytes(tag, chunk) + rest, streams) == push_fields(
            rest,
            streams,
        ),
        tag > 2 ==> stream_fields(proto::chunk_bytes(tag, chunk) + rest, s) == stream_fields(
            rest,
            s,
        ),
        tag > 2 ==> entry_fields(proto::chunk_bytes(tag, chunk) + rest, e) == entry_fields(rest, e),
        stream_fields(proto::chunk_bytes(1, vstd::utf8::encode_utf8(labels)) + rest, s)
            == stream_fields(rest, (labels, s.1)),
        entry_fields(proto::chunk_bytes(2, vstd::utf8::encode_utf8(line)) + rest, e)
            == entry_fields(rest, (e.0, e.1, line)),
{
    proto::law_chunk_round_trip(tag, chunk, rest);
    lemma_chunk_key(tag, chunk, rest);
    let l = vstd::utf8::encode_utf8(labels);
    let n = vstd::utf8::encode_utf8(line);
    proto::law_chunk_round_trip(1, l, rest);
    proto::law_chunk_round_trip(2, n, rest);
    vstd::utf8::encode_utf8_valid_utf8(labels);
    vstd::utf8::encode_utf8_decode_utf8(labels);
    vstd::utf8::encode_utf8_valid_utf8(line);
    vstd::utf8::encode_utf8_decode_utf8(line);
}

proof fn lemma_chunk_key(tag: u32, chunk: Seq<u8>, rest: Seq<u8>)
    requires
        proto::is_tag(tag),
        chunk.len() <= u64::MAX,
    ensures
        proto::key_of(proto::chunk_bytes(tag, chunk) + rest) matches Some((t, wire, body)) && t
            == tag && proto::skipped(wire, tag, body, proto::MAX_NESTING as nat) == Some(rest),
{
    proto::law_chunk_round_trip(tag, chunk, rest);
}

/// Each stream of a request is decoded to its labels and its lines, in order: a line's time
/// is its seconds times a billion and its nanoseconds. The first stream whose labels do not
/// parse refuses the request, and is named.
pub proof fn law_streams_are_decoded(streams: Seq<WireStream>, s: WireStream, i: int)
    ensures
        decoded_streams(Seq::<WireStream>::empty()) == Ok::<Seq<Stream>, Refusal>(seq![]),
        decoded_streams(streams) is Err ==> decoded_streams(streams.push(s)) == decoded_streams(
            streams,
        ),
        decoded_streams(streams) is Ok && logql::label_set_of(s.0) is Err ==> decoded_streams(
            streams.push(s),
        ) == Err::<Seq<Stream>, Refusal>(Refusal::Labels(s.0, logql::label_set_of(s.0)->Err_0)),
        decoded_streams(streams) is Ok && logql::label_set_of(s.0) is Ok ==> ({
            let all = decoded_streams(streams.push(s));
            &&& all is Ok
            &&& all->Ok_0.drop_last() == decoded_streams(streams)->Ok_0
            &&& all->Ok_0.last().labels == logql::label_set_of(s.0)->Ok_0
            &&& all->Ok_0.last().entries.len() == s.1.len()
            &&& 0 <= i < s.1.len() ==> all->Ok_0.last().entries[i].1 == s.1[i].2
            &&& 0 <= i < s.1.len() && i64::MIN <= s.1[i].0 * 1_000_000_000 <= i64::MAX && i64::MIN
                <= s.1[i].0 * 1_000_000_000 + s.1[i].1 <= i64::MAX
                ==> all->Ok_0.last().entries[i].0 == s.1[i].0 * 1_000_000_000 + s.1[i].1
        }),
{
    assert(streams.push(s).drop_last() =~= streams);
    if decoded_streams(streams) is Ok && logql::label_set_of(s.0) is Ok {
        let all = decoded_streams(streams.push(s))->Ok_0;
        assert(all.drop_last() =~= decoded_streams(streams)->Ok_0);
    }
}

/// A body is refused for the first thing that is wrong: its header, a claim of more than
/// 64 MiB, its compression, its fields, its labels.
pub proof fn law_first_fault_refuses_the_body(body: Seq<u8>)
    ensures
        claimed_len(body) is None ==> push_of(body) == Err::<Seq<Stream>, Refusal>(
            Refusal::Header(snappy_header_error(body)),
        ),
        claimed_len(body) is Some && claimed_len(body)->0 > 67_108_864 ==> push_of(body) == Err::<
            Seq<Stream>,
            Refusal,
        >(Refusal::TooLarge(claimed_len(body)->0)),
        claimed_len(body) is Some && claimed_len(body)->0 <= 67_108_864 && snappy_bytes(body) is Err
            ==> push_of(body) == Err::<Seq<Stream>, Refusal>(
            Refusal::Decompress(snappy_bytes(body)->Err_0),
        ),
        claimed_len(body) is Some && claimed_len(body)->0 <= 67_108_864 && snappy_bytes(body) is Ok
            && push_fields(snappy_bytes(body)->Ok_0, seq![]) is None ==> push_of(body) == Err::<
            Seq<Stream>,
            Refusal,
        >(Refusal::Protobuf),
{
}

/// Of a group that is not known up to 99 levels are passed over with it, and no more; what
/// is nested in a message counts from the message, so a stream has one level less, a line
/// two, and a time three.
pub proof fn law_unknown_groups_are_passed_over(
    tag: u32,
    depth: nat,
    rest: Seq<u8>,
    streams: Seq<WireStream>,
    s: WireStream,
    e: WireEntry,
    t: (i64, i32),
)
    requires
        proto::is_tag(tag),
        tag > 2,
    ensures
        depth < 100 ==> push_fields(proto::nested_groups(tag, depth + 1, rest), streams)
            == push_fields(rest, streams),
        depth >= 100 ==> push_fields(proto::nested_groups(tag, depth + 1, rest), streams) is None,
        depth < 99 ==> stream_fields(proto::nested_groups(tag, depth + 1, rest), s)
            == stream_fields(rest, s),
        depth >= 99 ==> stream_fields(proto::nested_groups(tag, depth + 1, rest), s) is None,
        depth < 98 ==> entry_fields(proto::nested_groups(tag, depth + 1, rest), e) == entry_fields(
            rest,
            e,
        ),
        depth >= 98 ==> entry_fields(proto::nested_groups(tag, depth + 1, rest), e) is None,
        depth < 97 ==> time_fields(proto::nested_groups(tag, depth + 1, rest), t) == time_fields(
            rest,
            t,
        ),
        depth >= 97 ==> time_fields(proto::nested_groups(tag, depth + 1, rest), t) is None,
{
    let end = proto::varint_bytes(tag as nat * 8 + 4) + rest;
    let inner = proto::nested_groups(tag, depth, end);
    let all = proto::nested_groups(tag, depth + 1, rest);
    let start = (tag * 8 + 3) as u64;
    assert(all == proto::varint_bytes(start as nat) + inner);
    proto::law_texts_are_utf8(Seq::empty(), Seq::empty(), inner, start);
    proto::law_nested_groups_are_passed_over(tag, depth, rest, 100);
    proto::law_nested_groups_are_passed_over(tag, depth, rest, 99);
    proto::law_nested_groups_are_passed_over(tag, depth, rest, 98);
    proto::law_nested_groups_are_passed_over(tag, depth, rest, 97);
    proto::lemma_nested_len(tag, depth, end);
    proto::law_varint_round_trip(start, inner);
    proto::lemma_leb128(all, 10);
    assert(proto::key_of(all) == Some((tag, 3u8, inner)));
    assert(all.len() > 0);
    assert(inner.len() < all.len());
    assert(end.len() >= rest.len());
}

/// The seconds and the nanoseconds of a time are its fields one and two, and of each the
/// later counts.
pub proof fn law_time_fields(v: u64, rest: Seq<u8>, t: (i64, i32))
    ensures
        time_fields(proto::number_bytes(1, v) + rest, t) == time_fields(rest, (v as i64, t.1)),
        time_fields(proto::number_bytes(2, v) + rest, t) == time_fields(rest, (t.0, v as i32)),
        time_fields(Seq::<u8>::empty(), t) == Some(t),
{
    proto::law_number_round_trip(1, v, rest);
    proto::law_number_round_trip(2, v, rest);
}

/// The contents of a stream are its own: its labels, and its lines behind their times.
pub proof fn law_streams_are_taken_as_they_are(s: DecodedStream, raw: RawStream, i: int)
    ensures
        s@.labels == s.labels.texts(),
        s@.entries.len() == s.entries@.len(),
        0 <= i < s.entries@.len() ==> s@.entries[i].0 == s.entries@[i].0 && s@.entries[i].1
            == s.entries@[i].1@,
        raw_streams(seq![raw])[0].0 == raw.labels@,
        raw_streams(seq![raw])[0].1.len() == raw.entries@.len(),
        0 <= i < raw.entries@.len() ==> raw_streams(seq![raw])[0].1[i] == (
            raw.entries@[i].seconds,
            raw.entries@[i].nanos,
            raw.entries@[i].line@,
        ),
{
}

/// A refusal names what is wrong: the reason that was given, the number of bytes that were
/// claimed, the labels that do not parse.
pub proof fn law_refusals_in_words(why: Seq<char>, n: nat, labels: Seq<char>)
    ensures
        refusal_text(Refusal::Header(why)) == "invalid snappy header: "@ + why,
        refusal_text(Refusal::TooLarge(n)) == "snappy payload claims "@ + decimal::decimal(n)
            + " decompressed bytes, exceeding the "@ + decimal::decimal(67_108_864) + " limit"@,
        refusal_text(Refusal::Decompress(why)) == "snappy decompress failed: "@ + why,
        refusal_text(Refusal::Protobuf) == "protobuf decode failed"@,
        refusal_text(Refusal::Labels(labels, why)) == "malformed stream labels "@
            + text::debug_text(labels) + ": "@ + why,
{
}

} // verus!
