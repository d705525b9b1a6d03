//! Order-preserving bytes for signed nanosecond timestamps.
//!
//! Every sortable storage key starts with a timestamp. Stores order keys by their
//! bytes, so the signed timestamp is shifted into the unsigned range first: a plain cast
//! would sort negative timestamps behind positive ones.

use vstd::prelude::*;

use crate::order;

verus! {

/// The distance by which timestamps are shifted.
pub const BIAS: u64 = 0x8000_0000_0000_0000;

/// Shifts a timestamp so that unsigned order is time order.
pub fn order_preserving_ns(timestamp_ns: i64) -> (r: u64)
    ensures
        r == timestamp_ns + BIAS,
{
    let r: u64 = (timestamp_ns as u64) ^ (1u64 << 63u64);
    proof {
        assert(((timestamp_ns as u64) ^ (1u64 << 63u64)) == timestamp_ns + 0x8000_0000_0000_0000u64)
            by (bit_vector);
    }
    r
}

/// Takes the shift off again.
pub fn decode_order_preserving_ns(biased: u64) -> (r: i64)
    ensures
        r == biased - BIAS,
{
    let r: i64 = (biased ^ (1u64 << 63u64)) as i64;
    proof {
        assert(((biased ^ (1u64 << 63u64)) as i64) == biased - 0x8000_0000_0000_0000u64)
            by (bit_vector);
    }
    r
}

/// The `k` low bytes of `n`, most significant first.
pub open spec fn be_bytes(n: nat, k: nat) -> Seq<u8>
    decreases k,
{
    if k == 0 {
        seq![]
    } else {
        be_bytes(n / 256, (k - 1) as nat).push((n % 256) as u8)
    }
}

/// The number that bytes write, most significant first.
pub open spec fn be_value(s: Seq<u8>) -> nat
    decreases s.len(),
{
    if s.len() == 0 {
        0
    } else {
        be_value(s.drop_last()) * 256 + s.last() as nat
    }
}

/// `n` can be written in `k` bytes.
pub open spec fn fits(n: nat, k: nat) -> bool
    decreases k,
{
    if k == 0 {
        n == 0
    } else {
        fits(n / 256, (k - 1) as nat)
    }
}

pub proof fn lemma_u64_fits(n: u64)
    ensures
        fits(n as nat, 8),
{
    reveal_with_fuel(fits, 9);
}

pub proof fn lemma_be_bytes_len(n: nat, k: nat)
    ensures
        be_bytes(n, k).len() == k,
    decreases k,
{
    if k > 0 {
        lemma_be_bytes_len(n / 256, (k - 1) as nat);
    }
}

/// Reading bytes that were written gives the number back.
pub proof fn law_be_round_trip(n: nat, k: nat)
    requires
        fits(n, k),
    ensures
        be_value(be_bytes(n, k)) == n,
    decreases k,
{
    if k > 0 {
        law_be_round_trip(n / 256, (k - 1) as nat);
        assert(be_bytes(n, k).drop_last() =~= be_bytes(n / 256, (k - 1) as nat));
    }
}

/// Byte order is the order of the numbers.
pub proof fn law_be_order(n: nat, m: nat, k: nat)
    requires
        fits(n, k),
        fits(m, k),
    ensures
        order::bytes_lt(be_bytes(n, k), be_bytes(m, k)) <==> n < m,
    decreases k,
{
    assert(order::strict_total(order::byte_less()));
    if k > 0 {
        let j = (k - 1) as nat;
        law_be_order(n / 256, m / 256, j);
        lemma_be_bytes_len(n / 256, j);
        lemma_be_bytes_len(m / 256, j);
        let x = (n % 256) as u8;
        let y = (m % 256) as u8;
        order::lemma_lex_append(
            be_bytes(n / 256, j),
            be_bytes(m / 256, j),
            seq![x],
            seq![y],
            order::byte_less(),
        );
        assert(be_bytes(n, k) =~= be_bytes(n / 256, j) + seq![x]);
        assert(be_bytes(m, k) =~= be_bytes(m / 256, j) + seq![y]);
        reveal_with_fuel(order::lex_lt, 3);
        assert(order::lex_lt(seq![x], seq![y], order::byte_less()) <==> x < y) by {
            assert(seq![x].drop_first() =~= Seq::<u8>::empty());
            assert(seq![y].drop_first() =~= Seq::<u8>::empty());
        }
        law_be_round_trip(n / 256, j);
        law_be_round_trip(m / 256, j);
    }
}

/// Writes a number as eight bytes, most significant first.
pub fn to_be_bytes(n: u64) -> (r: Vec<u8>)
    ensures
        r@ == be_bytes(n as nat, 8),
{
    be_bytes_from(n, 8)
}

fn be_bytes_from(n: u64, k: u64) -> (r: Vec<u8>)
    ensures
        r@ == be_bytes(n as nat, k as nat),
    decreases k,
{
    if k == 0 {
        Vec::new()
    } else {
        let mut out: Vec<u8> = be_bytes_from(n / 256, k - 1);
        out.push((n % 256) as u8);
        out
    }
}

proof fn lemma_be_value_bound(s: Seq<u8>)
    requires
        s.len() <= 8,
    ensures
        s.len() == 0 ==> be_value(s) == 0,
        s.len() == 1 ==> be_value(s) < 0x100,
        s.len() == 2 ==> be_value(s) < 0x1_0000,
        s.len() == 3 ==> be_value(s) < 0x100_0000,
        s.len() == 4 ==> be_value(s) < 0x1_0000_0000,
        s.len() == 5 ==> be_value(s) < 0x100_0000_0000,
        s.len() == 6 ==> be_value(s) < 0x1_0000_0000_0000,
        s.len() == 7 ==> be_value(s) < 0x100_0000_0000_0000,
        s.len() == 8 ==> be_value(s) < 0x1_0000_0000_0000_0000,
    decreases s.len(),
{
    if s.len() > 0 {
        lemma_be_value_bound(s.drop_last());
    }
}

/// Four bytes write a number of at most 32 bits.
pub proof fn lemma_four_bytes(s: Seq<u8>)
    requires
        s.len() == 4,
    ensures
        be_value(s) < 0x1_0000_0000,
{
    lemma_be_value_bound(s);
}

/// Reads up to eight bytes as a number, most significant first.
pub fn from_be_bytes(bytes: &[u8], len: usize) -> (r: u64)
    requires
        len <= bytes@.len(),
        len <= 8,
    ensures
        r == be_value(bytes@.take(len as int)),
{
    let mut n: u64 = 0;
    let mut i: usize = 0;
    assert(bytes@.take(0) =~= Seq::<u8>::empty());
    while i < len
        invariant
            i <= len <= bytes@.len(),
            len <= 8,
            n == be_value(bytes@.take(i as int)),
        decreases len - i,
    {
        proof {
            assert(bytes@.take(i + 1).drop_last() =~= bytes@.take(i as int));
            lemma_be_value_bound(bytes@.take(i as int));
            lemma_be_value_bound(bytes@.take(i + 1));
        }
        n = n * 256 + bytes[i] as u64;
        i = i + 1;
    }
    n
}

/// The bytes from a place on.
pub fn bytes_from(bytes: &[u8], from: usize) -> (r: Vec<u8>)
    requires
        from <= bytes@.len(),
    ensures
        r@ == bytes@.skip(from as int),
{
    let mut out: Vec<u8> = Vec::new();
    let mut i: usize = from;
    while i < bytes.len()
        invariant
            from <= i <= bytes@.len(),
            out@ == bytes@.subrange(from as int, i as int),
        decreases bytes.len() - i,
    {
        out.push(bytes[i]);
        i = i + 1;
        assert(out@ =~= bytes@.subrange(from as int, i as int));
    }
    assert(out@ =~= bytes@.skip(from as int));
    out
}

/// Writing bytes that were read gives the bytes back.
pub proof fn law_be_reread(s: Seq<u8>)
    ensures
        be_bytes(be_value(s), s.len()) == s,
        fits(be_value(s), s.len()),
    decreases s.len(),
{
    if s.len() > 0 {
        law_be_reread(s.drop_last());
        assert(be_value(s) / 256 == be_value(s.drop_last()));
        assert(s =~= s.drop_last().push(s.last()));
    } else {
        assert(s =~= Seq::<u8>::empty());
    }
}

/// Timestamps and their shifted form are ordered alike, and each gives back the other.
pub proof fn law_bias_preserves_order(a: i64, b: i64)
    ensures
        a < b <==> a + BIAS < b + BIAS,
        0 <= a + BIAS <= u64::MAX,
        (a + BIAS) - BIAS == a,
{
}

/// Bytes are read from the left: each makes 256 times as much as before, and itself.
pub proof fn law_bytes_are_read_in_order(s: Seq<u8>, b: u8)
    ensures
        be_value(Seq::<u8>::empty()) == 0,
        be_value(s.push(b)) == 256 * be_value(s) + b,
{
    assert(s.push(b).drop_last() =~= s);
}

/// Numbers are written with the low byte last, in just as many bytes as asked for.
pub proof fn law_low_byte_is_written_last(n: nat, b: u8, k: nat)
    ensures
        be_bytes(n, k).len() == k,
        be_bytes(256 * n + b as nat, k + 1) == be_bytes(n, k).push(b),
{
    lemma_be_bytes_len(n, k);
    assert((256 * n + b as nat) / 256 == n);
    assert((256 * n + b as nat) % 256 == b);
}

} // verus!
