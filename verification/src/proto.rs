//! Protocol Buffers on the wire: keys, varints, length-delimited chunks, unknown fields.

use prost::encoding::decode_varint;

use vstd::prelude::*;
use vstd::slice::slice_subrange;

use crate::keycodec::bytes_from;
use crate::text::from_utf8;

verus! {

/// The number that the first bytes write, seven bits each, the lowest first, and how many
/// bytes that takes. The last of them is below 0x80, and there are at most `max`.
pub open spec fn leb128(bytes: Seq<u8>, max: nat) -> Option<(nat, nat)>
    decreases max,
{
    if max == 0 || bytes.len() == 0 {
        None
    } else if bytes[0] < 0x80 {
        Some((bytes[0] as nat, 1))
    } else {
        match leb128(bytes.skip(1), (max - 1) as nat) {
            Some((v, n)) => Some(((bytes[0] - 0x80) as nat + 128 * v, n + 1)),
            None => None,
        }
    }
}

/// A varint: at most ten bytes that write at most 64 bits; the value, and what follows.
pub open spec fn varint_of(bytes: Seq<u8>) -> Option<(u64, Seq<u8>)> {
    match leb128(bytes, 10) {
        Some((v, n)) if v <= u64::MAX => Some((v as u64, bytes.skip(n as int))),
        _ => None,
    }
}

pub proof fn lemma_leb128(bytes: Seq<u8>, max: nat)
    ensures
        leb128(bytes, max) matches Some((_, n)) ==> 1 <= n <= bytes.len(),
    decreases max,
{
    if max > 0 && bytes.len() > 0 && bytes[0] >= 0x80 {
        lemma_leb128(bytes.skip(1), (max - 1) as nat);
    }
}

/// `prost::encoding::decode_varint`: the value of a varint, and how many bytes are left
/// behind it.
#[verifier::external_body]
fn varint_and_left(bytes: &[u8]) -> (r: Option<(u64, usize)>)
    ensures
        match r {
            Some((v, left)) => varint_of(bytes@) matches Some((w, rest)) && v == w && left
                == rest.len(),
            None => varint_of(bytes@) is None,
        },
{
    let mut rest = bytes;
    let value = decode_varint(&mut rest).ok()?;
    Some((value, rest.len()))
}

/// How deep messages and groups may be nested.
pub const MAX_NESTING: u32 = 100;

/// The key of a field: its number, its wire type, and what follows.
pub open spec fn key_of(bytes: Seq<u8>) -> Option<(u32, u8, Seq<u8>)> {
    match varint_of(bytes) {
        Some((key, rest)) => if key > u32::MAX || key % 8 > 5 || key / 8 == 0 {
            None
        } else {
            Some(((key / 8) as u32, (key % 8) as u8, rest))
        },
        None => None,
    }
}

/// A varint field's value, and what follows.
pub open spec fn varint_field(wire: u8, bytes: Seq<u8>) -> Option<(u64, Seq<u8>)> {
    if wire == 0 {
        varint_of(bytes)
    } else {
        None
    }
}

/// A length-delimited field's contents, and what follows.
pub open spec fn chunk_field(wire: u8, bytes: Seq<u8>) -> Option<(Seq<u8>, Seq<u8>)> {
    if wire != 2 {
        None
    } else {
        match varint_of(bytes) {
            Some((len, rest)) => if len > rest.len() {
                None
            } else {
                Some((rest.take(len as int), rest.skip(len as int)))
            },
            None => None,
        }
    }
}

/// A text field's contents, and what follows.
pub open spec fn text_field(wire: u8, bytes: Seq<u8>) -> Option<(Seq<char>, Seq<u8>)> {
    match chunk_field(wire, bytes) {
        Some((chunk, rest)) => if vstd::utf8::valid_utf8(chunk) {
            Some((vstd::utf8::decode_utf8(chunk), rest))
        } else {
            None
        },
        None => None,
    }
}

/// What follows a field that is passed over, groups and what is nested in them included, up
/// to `room` levels deep.
pub open spec fn skipped(wire: u8, tag: u32, bytes: Seq<u8>, room: nat) -> Option<Seq<u8>>
    decreases bytes.len(), 1nat,
{
    if room == 0 {
        None
    } else if wire == 0 {
        match varint_of(bytes) {
            Some((_, rest)) => Some(rest),
            None => None,
        }
    } else if wire == 1 {
        fixed(bytes, 8)
    } else if wire == 2 {
        match chunk_field(wire, bytes) {
            Some((_, rest)) => Some(rest),
            None => None,
        }
    } else if wire == 3 {
        group_skipped(tag, bytes, room)
    } else if wire == 5 {
        fixed(bytes, 4)
    } else {
        None
    }
}

/// What follows `n` bytes.
pub open spec fn fixed(bytes: Seq<u8>, n: int) -> Option<Seq<u8>> {
    if bytes.len() < n {
        None
    } else {
        Some(bytes.skip(n))
    }
}

/// What follows the fields of a group and its end, which bears the group's number.
pub open spec fn group_skipped(tag: u32, bytes: Seq<u8>, room: nat) -> Option<Seq<u8>>
    decreases bytes.len(), 0nat,
{
    match key_of(bytes) {
        Some((inner, wire, rest)) if rest.len() < bytes.len() => if wire == 4 {
            if inner == tag {
                Some(rest)
            } else {
                None
            }
        } else {
            match skipped(wire, inner, rest, (room - 1) as nat) {
                Some(after) if after.len() < bytes.len() => group_skipped(tag, after, room),
                _ => None,
            }
        },
        _ => None,
    }
}

/// Reads a varint.
pub fn read_varint<'a>(bytes: &'a [u8]) -> (r: Option<(u64, &'a [u8])>)
    ensures
        match r {
            Some((v, rest)) => varint_of(bytes@) == Some((v, rest@)) && rest@.len() < bytes@.len(),
            None => varint_of(bytes@) is None,
        },
{
    proof {
        lemma_leb128(bytes@, 10);
    }
    match varint_and_left(bytes) {
        Some((v, left)) => {
            let n: usize = bytes.len();
            let rest: &'a [u8] = slice_subrange(bytes, n - left, n);
            assert(rest@ =~= bytes@.skip(n - left));
            Some((v, rest))
        },
        None => None,
    }
}

/// Reads the key of a field.
pub fn read_key<'a>(bytes: &'a [u8]) -> (r: Option<(u32, u8, &'a [u8])>)
    ensures
        match r {
            Some((tag, wire, rest)) => key_of(bytes@) == Some((tag, wire, rest@)) && rest@.len()
                < bytes@.len(),
            None => key_of(bytes@) is None,
        },
{
    match read_varint(bytes) {
        Some((key, rest)) => {
            if key > 0xffff_ffff || key % 8 > 5 || key / 8 == 0 {
                None
            } else {
                Some(((key / 8) as u32, (key % 8) as u8, rest))
            }
        },
        None => None,
    }
}

/// Reads a varint field.
pub fn read_varint_field<'a>(wire: u8, bytes: &'a [u8]) -> (r: Option<(u64, &'a [u8])>)
    ensures
        match r {
            Some((v, rest)) => varint_field(wire, bytes@) == Some((v, rest@)) && rest@.len()
                < bytes@.len(),
            None => varint_field(wire, bytes@) is None,
        },
{
    if wire == 0 {
        read_varint(bytes)
    } else {
        None
    }
}

/// Reads a length-delimited field.
pub fn read_chunk<'a>(wire: u8, bytes: &'a [u8]) -> (r: Option<(&'a [u8], &'a [u8])>)
    ensures
        match r {
            Some((chunk, rest)) => chunk_field(wire, bytes@) == Some((chunk@, rest@))
                && rest@.len() < bytes@.len(),
            None => chunk_field(wire, bytes@) is None,
        },
{
    if wire != 2 {
        return None;
    }
    match read_varint(bytes) {
        Some((len, rest)) => {
            let n: usize = rest.len();
            if len > n as u64 {
                return None;
            }
            let k: usize = len as usize;
            let chunk: &'a [u8] = slice_subrange(rest, 0, k);
            let after: &'a [u8] = slice_subrange(rest, k, n);
            assert(chunk@ =~= rest@.take(k as int));
            assert(after@ =~= rest@.skip(k as int));
            Some((chunk, after))
        },
        None => None,
    }
}

/// Reads a text field.
pub fn read_text<'a>(wire: u8, bytes: &'a [u8]) -> (r: Option<(String, &'a [u8])>)
    ensures
        match r {
            Some((s, rest)) => text_field(wire, bytes@) == Some((s@, rest@)) && rest@.len()
                < bytes@.len(),
            None => text_field(wire, bytes@) is None,
        },
{
    match read_chunk(wire, bytes) {
        Some((chunk, rest)) => {
            let copy: Vec<u8> = bytes_from(chunk, 0);
            assert(copy@ =~= chunk@);
            match from_utf8(copy) {
                Some(s) => {
                    proof {
                        vstd::utf8::encode_utf8_decode_utf8(s@);
                    }
                    Some((s, rest))
                },
                None => None,
            }
        },
        None => None,
    }
}

/// Passes over a field, up to `room` levels deep.
pub fn pass_over<'a>(wire: u8, tag: u32, bytes: &'a [u8], room: u32) -> (r: Option<&'a [u8]>)
    ensures
        match r {
            Some(rest) => skipped(wire, tag, bytes@, room as nat) == Some(rest@) && rest@.len()
                <= bytes@.len(),
            None => skipped(wire, tag, bytes@, room as nat) is None,
        },
    decreases room, 1nat,
{
    if room == 0 {
        return None;
    }
    if wire == 0 {
        match read_varint(bytes) {
            Some((_, rest)) => Some(rest),
            None => None,
        }
    } else if wire == 1 {
        pass_fixed(bytes, 8)
    } else if wire == 2 {
        match read_chunk(wire, bytes) {
            Some((_, rest)) => Some(rest),
            None => None,
        }
    } else if wire == 3 {
        pass_group(tag, bytes, room)
    } else if wire == 5 {
        pass_fixed(bytes, 4)
    } else {
        None
    }
}

fn pass_fixed<'a>(bytes: &'a [u8], n: usize) -> (r: Option<&'a [u8]>)
    ensures
        match r {
            Some(rest) => fixed(bytes@, n as int) == Some(rest@) && rest@.len() <= bytes@.len(),
            None => fixed(bytes@, n as int) is None,
        },
{
    if bytes.len() < n {
        None
    } else {
        let rest: &'a [u8] = slice_subrange(bytes, n, bytes.len());
        assert(rest@ =~= bytes@.skip(n as int));
        Some(rest)
    }
}

fn pass_group<'a>(tag: u32, bytes: &'a [u8], room: u32) -> (r: Option<&'a [u8]>)
    requires
        room > 0,
    ensures
        match r {
            Some(rest) => group_skipped(tag, bytes@, room as nat) == Some(rest@) && rest@.len()
                <= bytes@.len(),
            None => group_skipped(tag, bytes@, room as nat) is None,
        },
    decreases room, 0nat,
{
    let mut rest: &'a [u8] = bytes;
    loop
        invariant
            room > 0,
            rest@.len() <= bytes@.len(),
            group_skipped(tag, rest@, room as nat) == group_skipped(tag, bytes@, room as nat),
        decreases rest@.len(),
    {
        match read_key(rest) {
            None => {
                return None;
            },
            Some((inner, wire, body)) => {
                if wire == 4 {
                    return if inner == tag {
                        Some(body)
                    } else {
                        None
                    };
                }
                match pass_over(wire, inner, body, room - 1) {
                    None => {
                        return None;
                    },
                    Some(after) => {
                        rest = after;
                    },
                }
            },
        }
    }
}

/// How a number is written as a varint.
pub open spec fn varint_bytes(v: nat) -> Seq<u8>
    decreases v,
{
    if v < 128 {
        seq![v as u8]
    } else {
        seq![(v % 128 + 128) as u8] + varint_bytes(v / 128)
    }
}

/// A varint that was written is read back, with what follows it.
pub proof fn law_varint_round_trip(v: u64, rest: Seq<u8>)
    ensures
        varint_of(varint_bytes(v as nat) + rest) == Some((v, rest)),
{
    lemma_leb128_written(v as nat, rest, 10);
    let n = varint_bytes(v as nat).len() as int;
    assert((varint_bytes(v as nat) + rest).skip(n) =~= rest);
}

/// How a length-delimited field is written.
pub open spec fn chunk_bytes(tag: u32, chunk: Seq<u8>) -> Seq<u8> {
    varint_bytes(tag as nat * 8 + 2) + varint_bytes(chunk.len()) + chunk
}

/// How a varint field is written.
pub open spec fn number_bytes(tag: u32, v: u64) -> Seq<u8> {
    varint_bytes(tag as nat * 8) + varint_bytes(v as nat)
}

/// A field number that can be written.
pub open spec fn is_tag(tag: u32) -> bool {
    1 <= tag < 0x2000_0000
}

/// A length-delimited field that was written is read back, with what follows it.
pub proof fn law_chunk_round_trip(tag: u32, chunk: Seq<u8>, rest: Seq<u8>)
    requires
        is_tag(tag),
        chunk.len() <= u64::MAX,
    ensures
        key_of(chunk_bytes(tag, chunk) + rest) matches Some((t, wire, body)) && t == tag
            && chunk_field(wire, body) == Some((chunk, rest)),
        rest.len() < (chunk_bytes(tag, chunk) + rest).len(),
{
    let key = (tag * 8 + 2) as u64;
    let len = chunk.len() as u64;
    let body = varint_bytes(len as nat) + (chunk + rest);
    law_varint_round_trip(key, body);
    law_varint_round_trip(len, chunk + rest);
    assert(chunk_bytes(tag, chunk) + rest =~= varint_bytes(key as nat) + body);
    assert((chunk + rest).take(len as int) =~= chunk);
    assert((chunk + rest).skip(len as int) =~= rest);
    lemma_varint_bytes(key as nat);
}

/// A varint field that was written is read back, with what follows it.
pub proof fn law_number_round_trip(tag: u32, v: u64, rest: Seq<u8>)
    requires
        is_tag(tag),
    ensures
        key_of(number_bytes(tag, v) + rest) matches Some((t, wire, body)) && t == tag
            && varint_field(wire, body) == Some((v, rest)),
        rest.len() < (number_bytes(tag, v) + rest).len(),
{
    let key = (tag * 8) as u64;
    let body = varint_bytes(v as nat) + rest;
    law_varint_round_trip(key, body);
    law_varint_round_trip(v, rest);
    assert(number_bytes(tag, v) + rest =~= varint_bytes(key as nat) + body);
    lemma_varint_bytes(key as nat);
}

proof fn lemma_varint_bytes(v: nat)
    ensures
        varint_bytes(v).len() > 0,
    decreases v,
{
}

/// `v` can be written in `max` groups of seven bits.
spec fn fits_groups(v: nat, max: nat) -> bool
    decreases max,
{
    if max == 0 {
        false
    } else {
        v < 128 || fits_groups(v / 128, (max - 1) as nat)
    }
}

proof fn lemma_leb128_written(v: nat, rest: Seq<u8>, max: nat)
    requires
        v <= u64::MAX,
        max == 10,
    ensures
        leb128(varint_bytes(v) + rest, max) == Some((v, varint_bytes(v).len())),
{
    reveal_with_fuel(fits_groups, 11);
    assert(fits_groups(v, 10));
    lemma_leb128_groups(v, rest, max);
}

proof fn lemma_leb128_groups(v: nat, rest: Seq<u8>, max: nat)
    requires
        fits_groups(v, max),
    ensures
        leb128(varint_bytes(v) + rest, max) == Some((v, varint_bytes(v).len())),
    decreases max,
{
    let s = varint_bytes(v) + rest;
    if v >= 128 {
        lemma_leb128_groups(v / 128, rest, (max - 1) as nat);
        assert(s.skip(1) =~= varint_bytes(v / 128) + rest);
        assert(s[0] == (v % 128 + 128) as u8);
    }
}

/// A varint is written seven bits to a byte, the lowest first, with the top bit set on every
/// byte but the last; it is read the same way, and a text that ends before its last byte is
/// none.
pub proof fn law_varint_bytes(v: nat, low: u8, bytes: Seq<u8>, max: nat)
    requires
        low < 128,
    ensures
        varint_bytes(low as nat) == seq![low],
        v > 0 ==> varint_bytes(128 * v + low as nat) == seq![(low + 128) as u8] + varint_bytes(v),
        leb128(Seq::<u8>::empty(), max) is None,
        max > 0 ==> leb128(seq![low] + bytes, max) == Some((low as nat, 1nat)),
        max > 0 && leb128(bytes, (max - 1) as nat) is Some ==> leb128(
            seq![(low + 128) as u8] + bytes,
            max,
        ) == Some(
            (
                (128 * (leb128(bytes, (max - 1) as nat)->0).0 + low) as nat,
                ((leb128(bytes, (max - 1) as nat)->0).1 + 1) as nat,
            ),
        ),
        max > 0 && leb128(bytes, (max - 1) as nat) is None ==> leb128(
            seq![(low + 128) as u8] + bytes,
            max,
        ) is None,
{
    if v > 0 {
        let n = 128 * v + low as nat;
        assert(n / 128 == v && n % 128 == low);
    }
    assert((seq![(low + 128) as u8] + bytes).skip(1) =~= bytes);
}

/// A field that is passed over is passed over whole: a varint, eight or four bytes, or a
/// length and as many bytes. A field of no known kind, or one that is cut off, is refused.
pub proof fn law_unknown_fields_are_passed_over(
    tag: u32,
    v: u64,
    chunk: Seq<u8>,
    rest: Seq<u8>,
    room: nat,
    wire: u8,
)
    requires
        room > 0,
        chunk.len() <= u64::MAX,
    ensures
        skipped(0, tag, varint_bytes(v as nat) + rest, room) == Some(rest),
        chunk.len() == 8 ==> skipped(1, tag, chunk + rest, room) == Some(rest),
        chunk.len() == 4 ==> skipped(5, tag, chunk + rest, room) == Some(rest),
        skipped(2, tag, varint_bytes(chunk.len()) + chunk + rest, room) == Some(rest),
        skipped(3, tag, varint_bytes(tag as nat * 8 + 4) + rest, room) == Some(rest)
            || !is_tag(tag),
        chunk.len() < 8 ==> skipped(1, tag, chunk, room) is None,
        chunk.len() < 4 ==> skipped(5, tag, chunk, room) is None,
        v > rest.len() ==> skipped(2, tag, varint_bytes(v as nat) + rest, room) is None
            && chunk_field(2, varint_bytes(v as nat) + rest) is None,
        wire == 4 || wire > 5 ==> skipped(wire, tag, rest, room) is None,
        skipped(wire, tag, rest, 0) is None,
        wire != 0 ==> varint_field(wire, rest) is None,
        wire != 2 ==> chunk_field(wire, rest) is None && text_field(wire, rest) is None,
{
    law_varint_round_trip(v, rest);
    law_varint_round_trip(chunk.len() as u64, chunk + rest);
    assert(varint_bytes(chunk.len()) + chunk + rest =~= varint_bytes(chunk.len()) + (chunk + rest));
    assert((chunk + rest).take(chunk.len() as int) =~= chunk);
    assert((chunk + rest).skip(chunk.len() as int) =~= rest);
    if is_tag(tag) {
        let key = (tag * 8 + 4) as u64;
        law_varint_round_trip(key, rest);
        lemma_varint_bytes(key as nat);
        assert(key % 8 == 4 && key / 8 == tag);
    }
}

/// A text field is its bytes as UTF-8, and bytes that are no UTF-8 are refused. A field
/// number of zero and one past 29 bits are refused.
pub proof fn law_texts_are_utf8(s: Seq<char>, chunk: Seq<u8>, rest: Seq<u8>, key: u64)
    requires
        chunk.len() <= u64::MAX,
        vstd::utf8::encode_utf8(s).len() <= u64::MAX,
    ensures
        text_field(
            2,
            varint_bytes(vstd::utf8::encode_utf8(s).len()) + vstd::utf8::encode_utf8(s) + rest,
        ) == Some((s, rest)),
        !vstd::utf8::valid_utf8(chunk) ==> text_field(
            2,
            varint_bytes(chunk.len()) + chunk + rest,
        ) is None,
        key < 8 || key > u32::MAX ==> key_of(varint_bytes(key as nat) + rest) is None,
        key % 8 > 5 ==> key_of(varint_bytes(key as nat) + rest) is None,
        8 <= key <= u32::MAX && key % 8 <= 5 ==> key_of(varint_bytes(key as nat) + rest) == Some(
            ((key / 8) as u32, (key % 8) as u8, rest),
        ),
{
    let bytes = vstd::utf8::encode_utf8(s);
    law_varint_round_trip(bytes.len() as u64, bytes + rest);
    assert(varint_bytes(bytes.len()) + bytes + rest =~= varint_bytes(bytes.len()) + (bytes + rest));
    assert((bytes + rest).take(bytes.len() as int) =~= bytes);
    assert((bytes + rest).skip(bytes.len() as int) =~= rest);
    vstd::utf8::encode_utf8_valid_utf8(s);
    vstd::utf8::encode_utf8_decode_utf8(s);
    law_varint_round_trip(chunk.len() as u64, chunk + rest);
    assert(varint_bytes(chunk.len()) + chunk + rest =~= varint_bytes(chunk.len()) + (chunk + rest));
    assert((chunk + rest).take(chunk.len() as int) =~= chunk);
    law_varint_round_trip(key, rest);
}

/// Groups in groups, `depth` of them, each opened and closed under the same number, and
/// what follows.
pub open spec fn nested_groups(tag: u32, depth: nat, rest: Seq<u8>) -> Seq<u8>
    decreases depth,
{
    if depth == 0 {
        rest
    } else {
        varint_bytes(tag as nat * 8 + 3) + nested_groups(
            tag,
            (depth - 1) as nat,
            varint_bytes(tag as nat * 8 + 4) + rest,
        )
    }
}

/// A group is passed over with all the groups nested in it, as long as there is room for
/// their depth; one more level is refused.
pub proof fn law_nested_groups_are_passed_over(tag: u32, depth: nat, rest: Seq<u8>, room: nat)
    requires
        is_tag(tag),
    ensures
        room > depth ==> skipped(
            3,
            tag,
            nested_groups(tag, depth, varint_bytes(tag as nat * 8 + 4) + rest),
            room,
        ) == Some(rest),
        room <= depth ==> skipped(
            3,
            tag,
            nested_groups(tag, depth, varint_bytes(tag as nat * 8 + 4) + rest),
            room,
        ) is None,
    decreases depth,
{
    let end = (tag * 8 + 4) as u64;
    let start = (tag * 8 + 3) as u64;
    let tail = varint_bytes(end as nat) + rest;
    law_varint_round_trip(end, rest);
    lemma_varint_bytes(end as nat);
    lemma_varint_bytes(start as nat);
    assert(end % 8 == 4 && end / 8 == tag && start % 8 == 3 && start / 8 == tag);
    if room > 0 && depth > 0 {
        let inner = nested_groups(tag, (depth - 1) as nat, varint_bytes(end as nat) + tail);
        let all = nested_groups(tag, depth, tail);
        assert(all == varint_bytes(start as nat) + inner);
        law_varint_round_trip(start, inner);
        law_nested_groups_are_passed_over(tag, (depth - 1) as nat, tail, (room - 1) as nat);
        if room > depth {
            lemma_nested_len(tag, (depth - 1) as nat, varint_bytes(end as nat) + tail);
            assert(group_skipped(tag, tail, room) == Some(rest));
            assert(tail.len() < all.len());
        }
    }
}

pub proof fn lemma_nested_len(tag: u32, depth: nat, rest: Seq<u8>)
    ensures
        nested_groups(tag, depth, rest).len() >= rest.len(),
    decreases depth,
{
    if depth > 0 {
        lemma_nested_len(tag, (depth - 1) as nat, varint_bytes(tag as nat * 8 + 4) + rest);
    }
}

} // verus!
