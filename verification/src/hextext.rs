//! Bytes as hexadecimal text.

use vstd::prelude::*;

use crate::text::from_chars;

verus! {

/// The lower-case digit of a number below sixteen.
pub open spec fn hex_digit(n: nat) -> char {
    if n < 10 {
        ('0' as u32 + n) as char
    } else {
        ('a' as u32 + (n - 10)) as char
    }
}

/// Two lower-case digits for each byte.
pub open spec fn hex_text(bytes: Seq<u8>) -> Seq<char>
    decreases bytes.len(),
{
    if bytes.len() == 0 {
        seq![]
    } else {
        hex_text(bytes.drop_last()) + seq![
            hex_digit((bytes.last() / 16) as nat),
            hex_digit((bytes.last() % 16) as nat),
        ]
    }
}

/// The number that a digit byte stands for.
pub open spec fn digit_of(b: u8) -> Option<u8> {
    if 48 <= b <= 57 {
        Some((b - 48) as u8)
    } else if 97 <= b <= 102 {
        Some((b - 87) as u8)
    } else if 65 <= b <= 70 {
        Some((b - 55) as u8)
    } else {
        None
    }
}

/// Why a text is no hexadecimal text.
#[derive(Debug, Clone, Copy, PartialEq, Eq, Structural)]
pub enum HexError {
    /// It has an odd number of bytes.
    OddLength,
    /// A byte of it is no digit.
    NotHex,
}

pub open spec fn hex_error_text(e: HexError) -> Seq<char> {
    match e {
        HexError::OddLength => "doc_id must be an even-length hex string"@,
        HexError::NotHex => "doc_id is not valid hex"@,
    }
}

impl HexError {
    /// The error in words.
    pub fn message(&self) -> (r: String)
        ensures
            r@ == hex_error_text(*self),
    {
        match self {
            HexError::OddLength => "doc_id must be an even-length hex string".to_string(),
            HexError::NotHex => "doc_id is not valid hex".to_string(),
        }
    }
}

pub open spec fn all_digits(s: Seq<u8>) -> bool {
    forall|i: int| 0 <= i < s.len() ==> digit_of(#[trigger] s[i]) is Some
}

/// The bytes that pairs of digits write.
pub open spec fn paired(s: Seq<u8>) -> Seq<u8> {
    Seq::new(
        s.len() / 2,
        |i: int| (digit_of(s[2 * i])->0 * 16 + digit_of(s[2 * i + 1])->0) as u8,
    )
}

/// What a text's bytes decode to.
pub open spec fn unhexed(s: Seq<u8>) -> Result<Seq<u8>, HexError> {
    if s.len() % 2 != 0 {
        Err(HexError::OddLength)
    } else if !all_digits(s) {
        Err(HexError::NotHex)
    } else {
        Ok(paired(s))
    }
}

fn digit_char(n: u8) -> (c: char)
    requires
        n < 16,
    ensures
        c == hex_digit(n as nat),
{
    if n < 10 {
        (48 + n) as char
    } else {
        (87 + n) as char
    }
}

/// Writes bytes as hexadecimal text.
pub fn hex_encode(bytes: &[u8]) -> (r: String)
    ensures
        r@ == hex_text(bytes@),
{
    let mut out: Vec<char> = Vec::new();
    let mut i: usize = 0;
    assert(out@ =~= hex_text(bytes@.take(0)));
    while i < bytes.len()
        invariant
            i <= bytes@.len(),
            out@ == hex_text(bytes@.take(i as int)),
        decreases bytes.len() - i,
    {
        let b: u8 = bytes[i];
        let ghost before = out@;
        out.push(digit_char(b / 16));
        out.push(digit_char(b % 16));
        assert(bytes@.take(i + 1).drop_last() =~= bytes@.take(i as int));
        assert(out@ =~= hex_text(bytes@.take(i + 1)));
        i = i + 1;
    }
    assert(bytes@.take(i as int) =~= bytes@);
    from_chars(&out)
}

fn read_digit(b: u8) -> (r: Option<u8>)
    ensures
        r == digit_of(b),
        r matches Some(d) ==> d < 16,
{
    if 48 <= b && b <= 57 {
        Some(b - 48)
    } else if 97 <= b && b <= 102 {
        Some(b - 87)
    } else if 65 <= b && b <= 70 {
        Some(b - 55)
    } else {
        None
    }
}

/// Reads hexadecimal text, in either case. It goes by the bytes of the text, so a
/// character of more than one byte is just no digit.
pub fn hex_decode(s: &str) -> (r: Result<Vec<u8>, HexError>)
    ensures
        match r {
            Ok(bytes) => unhexed(vstd::utf8::encode_utf8(s@)) == Ok::<Seq<u8>, HexError>(bytes@),
            Err(e) => unhexed(vstd::utf8::encode_utf8(s@)) == Err::<Seq<u8>, HexError>(e),
        },
{
    let bytes: &[u8] = s.as_bytes();
    let n: usize = bytes.len();
    if n % 2 != 0 {
        return Err(HexError::OddLength);
    }
    let mut out: Vec<u8> = Vec::new();
    let mut i: usize = 0;
    while i < n
        invariant
            i <= n,
            n == bytes@.len(),
            n % 2 == 0,
            i % 2 == 0,
            bytes@ == vstd::utf8::encode_utf8(s@),
            out@.len() == i / 2,
            forall|j: int| 0 <= j < i ==> digit_of(#[trigger] bytes@[j]) is Some,
            forall|j: int| 0 <= j < i / 2 ==> out@[j] == #[trigger] paired(bytes@)[j],
        decreases n - i,
    {
        match (read_digit(bytes[i]), read_digit(bytes[i + 1])) {
            (Some(hi), Some(lo)) => {
                out.push(hi * 16 + lo);
            },
            _ => {
                assert(digit_of(bytes@[i as int]) is None || digit_of(bytes@[i + 1]) is None);
                return Err(HexError::NotHex);
            },
        }
        i = i + 2;
    }
    assert(out@ =~= paired(bytes@));
    Ok(out)
}

proof fn lemma_hex_text_at(bytes: Seq<u8>)
    ensures
        hex_text(bytes).len() == 2 * bytes.len(),
        forall|i: int|
            0 <= i < bytes.len() ==> hex_text(bytes)[2 * i] == hex_digit(
                (#[trigger] bytes[i] / 16) as nat,
            ) && hex_text(bytes)[2 * i + 1] == hex_digit((bytes[i] % 16) as nat),
    decreases bytes.len(),
{
    if bytes.len() > 0 {
        let rest = bytes.drop_last();
        lemma_hex_text_at(rest);
        assert forall|i: int| 0 <= i < bytes.len() implies hex_text(bytes)[2 * i] == hex_digit(
            (#[trigger] bytes[i] / 16) as nat,
        ) && hex_text(bytes)[2 * i + 1] == hex_digit((bytes[i] % 16) as nat) by {
            if i < rest.len() {
                assert(rest[i] == bytes[i]);
            }
        }
    }
}

/// Bytes that were written as hexadecimal text are read back.
pub proof fn law_hex_round_trip(bytes: Seq<u8>)
    ensures
        unhexed(vstd::utf8::encode_utf8(hex_text(bytes))) == Ok::<Seq<u8>, HexError>(bytes),
{
    let t = hex_text(bytes);
    lemma_hex_text_at(bytes);
    assert forall|i: int| 0 <= i < t.len() implies (#[trigger] t[i] as u32) < 128 && digit_of(
        t[i] as u8,
    ) is Some by {
        let j = i / 2;
        assert(bytes[j] / 16 < 16 && bytes[j] % 16 < 16);
        assert(i == 2 * j || i == 2 * j + 1);
    }
    assert forall|i: int| 0 <= i < t.len() implies '\0' <= #[trigger] t[i] && t[i] <= '\u{7f}' by {
        let j = i / 2;
        lemma_digit_round_trip((bytes[j] / 16) as nat);
        lemma_digit_round_trip((bytes[j] % 16) as nat);
        assert(i == 2 * j || i == 2 * j + 1);
    }
    assert(vstd::utf8::is_ascii_chars(t));
    vstd::utf8::is_ascii_chars_encode_utf8(t);
    let s = vstd::utf8::encode_utf8(t);
    assert forall|i: int| 0 <= i < s.len() implies digit_of(#[trigger] s[i]) is Some by {
        assert(s[i] == t[i] as u8);
    }
    assert forall|i: int| 0 <= i < bytes.len() implies #[trigger] paired(s)[i] == bytes[i] by {
        assert(s[2 * i] == t[2 * i] as u8);
        assert(s[2 * i + 1] == t[2 * i + 1] as u8);
        lemma_digit_round_trip((bytes[i] / 16) as nat);
        lemma_digit_round_trip((bytes[i] % 16) as nat);
    }
    assert(paired(s) =~= bytes);
}

proof fn lemma_digit_round_trip(n: nat)
    requires
        n < 16,
    ensures
        digit_of(hex_digit(n) as u8) == Some(n as u8),
        '\0' <= hex_digit(n) && hex_digit(n) <= '\u{7f}',
{
}

/// Every byte is written by two digits, the upper four bits first: `0` to `9`, then `a` to
/// `f`.
pub proof fn law_two_digits_a_byte(bytes: Seq<u8>)
    ensures
        hex_text(bytes).len() == 2 * bytes.len(),
        forall|i: int|
            0 <= i < bytes.len() ==> hex_text(bytes)[2 * i] == "0123456789abcdef"@[(
            #[trigger] bytes[i] / 16) as int] && hex_text(bytes)[2 * i + 1]
                == "0123456789abcdef"@[(bytes[i] % 16) as int],
{
    reveal_strlit("0123456789abcdef");
    lemma_hex_text_at(bytes);
    assert forall|n: nat| n < 16 implies #[trigger] hex_digit(n) == "0123456789abcdef"@[n as int] by {
    }
    assert forall|i: int| 0 <= i < bytes.len() implies hex_text(bytes)[2 * i]
        == "0123456789abcdef"@[(#[trigger] bytes[i] / 16) as int] && hex_text(bytes)[2 * i + 1]
        == "0123456789abcdef"@[(bytes[i] % 16) as int] by {
        assert(hex_digit((bytes[i] / 16) as nat) == "0123456789abcdef"@[(bytes[i] / 16) as int]);
        assert(hex_digit((bytes[i] % 16) as nat) == "0123456789abcdef"@[(bytes[i] % 16) as int]);
    }
}

/// A text of an odd number of bytes is refused, one with a byte that is no digit is refused,
/// and any other gives one byte for two digits; a letter counts the same in either case.
pub proof fn law_pairs_of_digits_are_read(s: Seq<u8>, i: int)
    ensures
        s.len() % 2 == 1 ==> unhexed(s) == Err::<Seq<u8>, HexError>(HexError::OddLength),
        s.len() % 2 == 0 && 0 <= i < s.len() && !(('0' as u8) <= s[i] && s[i] <= ('9' as u8)) && !((
        'a' as u8) <= s[i] && s[i] <= ('f' as u8)) && !(('A' as u8) <= s[i] && s[i] <= ('F' as u8))
            ==> unhexed(s) == Err::<Seq<u8>, HexError>(HexError::NotHex),
        s.len() % 2 == 0 && (forall|j: int|
            0 <= j < s.len() ==> (('0' as u8) <= #[trigger] s[j] && s[j] <= ('9' as u8)) || (('a' as u8)
                <= s[j] && s[j] <= ('f' as u8)) || (('A' as u8) <= s[j] && s[j] <= ('F' as u8)))
            ==> unhexed(s) is Ok && unhexed(s)->Ok_0.len() == s.len() / 2,
        unhexed(s) is Ok && 0 <= i < s.len() / 2 && (('0' as u8) <= s[2 * i] && s[2 * i] <= ('9' as u8))
            ==> unhexed(s)->Ok_0[i] / 16 == s[2 * i] - ('0' as u8),
        unhexed(s) is Ok && 0 <= i < s.len() / 2 && (('a' as u8) <= s[2 * i] && s[2 * i] <= ('f' as u8))
            ==> unhexed(s)->Ok_0[i] / 16 == s[2 * i] - ('a' as u8) + 10,
        unhexed(s) is Ok && 0 <= i < s.len() / 2 && (('A' as u8) <= s[2 * i] && s[2 * i] <= ('F' as u8))
            ==> unhexed(s)->Ok_0[i] / 16 == s[2 * i] - ('A' as u8) + 10,
        unhexed(s) is Ok && 0 <= i < s.len() / 2 && (('0' as u8) <= s[2 * i + 1] && s[2 * i + 1] <= (
        '9' as u8)) ==> unhexed(s)->Ok_0[i] % 16 == s[2 * i + 1] - ('0' as u8),
        unhexed(s) is Ok && 0 <= i < s.len() / 2 && (('a' as u8) <= s[2 * i + 1] && s[2 * i + 1] <= (
        'f' as u8)) ==> unhexed(s)->Ok_0[i] % 16 == s[2 * i + 1] - ('a' as u8) + 10,
        unhexed(s) is Ok && 0 <= i < s.len() / 2 && (('A' as u8) <= s[2 * i + 1] && s[2 * i + 1] <= (
        'F' as u8)) ==> unhexed(s)->Ok_0[i] % 16 == s[2 * i + 1] - ('A' as u8) + 10,
{
    if all_digits(s) && s.len() % 2 == 0 && 0 <= i < s.len() / 2 {
        assert(digit_of(s[2 * i]) is Some);
        assert(digit_of(s[2 * i + 1]) is Some);
        let hi = digit_of(s[2 * i])->0;
        let lo = digit_of(s[2 * i + 1])->0;
        assert(hi < 16 && lo < 16);
        assert(paired(s)[i] == hi * 16 + lo);
    }
}

/// Why a text is no hexadecimal text, in words.
pub proof fn law_hex_errors_in_words(e: HexError)
    ensures
        e is OddLength ==> hex_error_text(e) == "doc_id must be an even-length hex string"@,
        e is NotHex ==> hex_error_text(e) == "doc_id is not valid hex"@,
{
}

} // verus!
