//! Message templates: lines that differ only in their numbers share an id.

use std::collections::hash_map::DefaultHasher;
use std::hash::{Hash, Hasher};

use vstd::prelude::*;

use crate::text;
use crate::text::{from_chars, split_words, to_chars};

verus! {

/// The byte strings that `str` hands to a hasher.
pub uninterp spec fn str_hash_writes(text: Seq<char>) -> Seq<Seq<u8>>;

/// `<str as Hash>::hash`: what is written into the hasher depends on the text alone and
/// comes after what was written before.
#[verifier::external_body]
fn feed_str(text: &str, state: &mut DefaultHasher)
    ensures
        final(state)@ == old(state)@ + str_hash_writes(text@),
{
    text.hash(state)
}

pub open spec fn is_hex_digit(c: char) -> bool {
    ('0' <= c && c <= '9') || ('a' <= c && c <= 'f') || ('A' <= c && c <= 'F')
}

pub open spec fn all_hex(s: Seq<char>) -> bool {
    forall|i: int| 0 <= i < s.len() ==> is_hex_digit(#[trigger] s[i])
}

pub open spec fn has_digit(s: Seq<char>) -> bool {
    exists|i: int| 0 <= i < s.len() && '0' <= #[trigger] s[i] && s[i] <= '9'
}

/// The letter `c` in lower case, if it is an ASCII capital; else `c`.
pub open spec fn ascii_lower(c: char) -> char {
    if 'A' <= c && c <= 'Z' {
        (c as u32 + 32) as char
    } else {
        c
    }
}

pub open spec fn lower(s: Seq<char>) -> Seq<char> {
    s.map_values(|c: char| ascii_lower(c))
}

/// What a word contributes to a template.
pub open spec fn masked_token(token: Seq<char>) -> Seq<char> {
    if token.len() >= 8 && all_hex(token) {
        "<HEX>"@
    } else if has_digit(token) {
        "<NUM>"@
    } else {
        lower(token)
    }
}

/// Texts with one space between each two.
pub open spec fn spaced(parts: Seq<Seq<char>>) -> Seq<char>
    decreases parts.len(),
{
    if parts.len() == 0 {
        seq![]
    } else if parts.len() == 1 {
        parts[0]
    } else {
        spaced(parts.drop_last()) + seq![' '] + parts.last()
    }
}

pub open spec fn masked_tokens(tokens: Seq<Seq<char>>) -> Seq<Seq<char>> {
    tokens.map_values(|t: Seq<char>| masked_token(t))
}

/// The shape of a message.
pub open spec fn masked(message: Seq<char>) -> Seq<char> {
    spaced(masked_tokens(text::words(message)))
}

/// The id of a shape.
pub open spec fn shape_id(shape: Seq<char>) -> u64 {
    <DefaultHasher as vstd::std_specs::hash::DefaultHasherAdditionalSpecFns>::spec_finish(
        str_hash_writes(shape),
    )
}

fn lower_char(c: char) -> (r: char)
    ensures
        r == ascii_lower(c),
{
    if 'A' <= c && c <= 'Z' {
        ((c as u8) + 32) as char
    } else {
        c
    }
}

/// A text with its ASCII capitals in lower case.
pub fn lower_text(s: &str) -> (r: String)
    ensures
        r@ == lower(s@),
{
    let chars: Vec<char> = to_chars(s);
    let mut out: Vec<char> = Vec::new();
    let mut i: usize = 0;
    while i < chars.len()
        invariant
            i <= chars@.len(),
            chars@ == s@,
            out@ == lower(s@.take(i as int)),
        decreases chars.len() - i,
    {
        out.push(lower_char(chars[i]));
        assert(s@.take(i + 1) =~= s@.take(i as int).push(s@[i as int]));
        assert(out@ =~= lower(s@.take(i + 1)));
        i = i + 1;
    }
    assert(s@.take(i as int) =~= s@);
    from_chars(&out)
}

/// Masks a word: long hexadecimal words and words with a digit become placeholders, all
/// others pass through in lower case.
pub fn mask_token(token: &str) -> (r: String)
    ensures
        r@ == masked_token(token@),
{
    let chars: Vec<char> = to_chars(token);
    let mut hex: bool = true;
    let mut digit: bool = false;
    let mut i: usize = 0;
    while i < chars.len()
        invariant
            i <= chars@.len(),
            chars@ == token@,
            hex == (forall|j: int| 0 <= j < i ==> is_hex_digit(#[trigger] token@[j])),
            digit == (exists|j: int| 0 <= j < i && '0' <= #[trigger] token@[j] && token@[j] <= '9'),
        decreases chars.len() - i,
    {
        let c: char = chars[i];
        assert(token@[i as int] == c);
        let is_digit: bool = '0' <= c && c <= '9';
        if !(is_digit || ('a' <= c && c <= 'f') || ('A' <= c && c <= 'F')) {
            assert(!is_hex_digit(token@[i as int]));
            hex = false;
        }
        if is_digit {
            digit = true;
        }
        i = i + 1;
    }
    if chars.len() >= 8 && hex {
        "<HEX>".to_string()
    } else if digit {
        "<NUM>".to_string()
    } else {
        lower_text(token)
    }
}

/// Masks every word of a message and joins them with single spaces.
pub fn mask(message: &str) -> (r: String)
    ensures
        r@ == masked(message@),
{
    let tokens: Vec<&str> = split_words(message);
    let ghost words = text::words(message@);
    let ghost parts = masked_tokens(words);
    let mut out: String = String::new();
    let mut i: usize = 0;
    while i < tokens.len()
        invariant
            i <= tokens@.len(),
            text::views(tokens@) == words,
            parts == masked_tokens(words),
            out@ == spaced(parts.take(i as int)),
        decreases tokens.len() - i,
    {
        let token: &str = tokens[i];
        assert(words[i as int] == token@);
        let part: String = mask_token(token);
        assert(parts.take(i + 1).drop_last() =~= parts.take(i as int));
        if i > 0 {
            out.push(' ');
            assert(spaced(parts.take(i as int)).push(' ') =~= spaced(parts.take(i as int)) + seq![' ']);
        }
        let ghost before = out@;
        out.append(part.as_str());
        proof {
            if i == 0 {
                assert(before + part@ =~= part@);
                assert(parts.take(1)[0] == part@);
            }
        }
        i = i + 1;
    }
    assert(parts.take(i as int) =~= parts);
    out
}

/// The id of a message's shape.
pub fn template_id(message: &str) -> (r: u64)
    ensures
        r == shape_id(masked(message@)),
{
    let shape: String = mask(message);
    let mut hasher: DefaultHasher = DefaultHasher::new();
    feed_str(shape.as_str(), &mut hasher);
    assert(hasher@ =~= str_hash_writes(shape@));
    hasher.finish()
}

/// Messages whose words mask alike, word by word, share a template.
pub proof fn law_same_shape_same_template(a: Seq<char>, b: Seq<char>)
    requires
        text::words(a).len() == text::words(b).len(),
        forall|i: int|
            0 <= i < text::words(a).len() ==> masked_token(#[trigger] text::words(a)[i])
                == masked_token(text::words(b)[i]),
    ensures
        masked(a) == masked(b),
        shape_id(masked(a)) == shape_id(masked(b)),
{
    assert(masked_tokens(text::words(a)) =~= masked_tokens(text::words(b)));
}

/// Any two words that hold a digit and are not long hexadecimal words mask alike.
pub proof fn law_numbers_mask_alike(a: Seq<char>, b: Seq<char>)
    requires
        has_digit(a),
        has_digit(b),
        !(a.len() >= 8 && all_hex(a)),
        !(b.len() >= 8 && all_hex(b)),
    ensures
        masked_token(a) == masked_token(b),
{
}

/// A word of eight or more hexadecimal digits becomes `<HEX>`, any other word with a decimal
/// digit becomes `<NUM>`, and any other stays as it is but for its ASCII capitals, which
/// become small.
pub proof fn law_words_are_masked(token: Seq<char>, i: int)
    ensures
        ({
            let hex = token.len() >= 8 && forall|j: int|
                0 <= j < token.len() ==> ('0' <= #[trigger] token[j] && token[j] <= '9') || ('a'
                    <= token[j] && token[j] <= 'f') || ('A' <= token[j] && token[j] <= 'F');
            let digit = exists|j: int|
                0 <= j < token.len() && '0' <= #[trigger] token[j] && token[j] <= '9';
            &&& hex ==> masked_token(token) == seq!['<', 'H', 'E', 'X', '>']
            &&& !hex && digit ==> masked_token(token) == seq!['<', 'N', 'U', 'M', '>']
            &&& !hex && !digit ==> masked_token(token).len() == token.len()
            &&& !hex && !digit && 0 <= i < token.len() && 'A' <= token[i] && token[i] <= 'Z'
                ==> masked_token(token)[i] as int == token[i] as int + 32
            &&& !hex && !digit && 0 <= i < token.len() && !('A' <= token[i] && token[i] <= 'Z')
                ==> masked_token(token)[i] == token[i]
        }),
{
    reveal_strlit("<HEX>");
    reveal_strlit("<NUM>");
    assert("<HEX>"@ =~= seq!['<', 'H', 'E', 'X', '>']);
    assert("<NUM>"@ =~= seq!['<', 'N', 'U', 'M', '>']);
}

proof fn lemma_spaced_first(first: Seq<char>, parts: Seq<Seq<char>>)
    requires
        parts.len() > 0,
    ensures
        spaced(seq![first] + parts) == first + seq![' '] + spaced(parts),
    decreases parts.len(),
{
    let all = seq![first] + parts;
    if parts.len() == 1 {
        assert(all.drop_last() =~= seq![first]);
        assert(spaced(seq![first]) == first);
        assert(parts[0] == parts.last());
        assert(all.last() == parts[0]);
    } else {
        lemma_spaced_first(first, parts.drop_last());
        assert(all.drop_last() =~= seq![first] + parts.drop_last());
        assert(all.last() == parts.last());
        assert(spaced(all) =~= first + seq![' '] + spaced(parts));
    }
}

/// A message is masked word by word, with one space between each two, however much white
/// space stands between or around them.
pub proof fn law_messages_are_masked_word_by_word(
    before: Seq<char>,
    word: Seq<char>,
    rest: Seq<char>,
)
    requires
        forall|i: int| 0 <= i < before.len() ==> text::is_white(#[trigger] before[i]),
        word.len() > 0,
        forall|i: int| 0 <= i < word.len() ==> !text::is_white(#[trigger] word[i]),
        rest.len() > 0 ==> text::is_white(rest[0]),
    ensures
        masked(before) == Seq::<char>::empty(),
        (forall|i: int| 0 <= i < rest.len() ==> text::is_white(#[trigger] rest[i])) ==> masked(
            before + word + rest,
        ) == masked_token(word),
        masked(before + word + rest) == masked_token(word) || masked(before + word + rest)
            == masked_token(word) + seq![' '] + masked(rest),
        text::words(rest).len() > 0 ==> masked(before + word + rest) == masked_token(word) + seq![
            ' ',
        ] + masked(rest),
{
    text::law_words_stand_between_white_space(before, word, rest);
    let parts = masked_tokens(text::words(rest));
    let all = masked_tokens(text::words(before + word + rest));
    assert(masked_tokens(text::words(before)) =~= seq![]);
    assert(all =~= seq![masked_token(word)] + parts);
    if parts.len() > 0 {
        lemma_spaced_first(masked_token(word), parts);
    } else {
        assert(all =~= seq![masked_token(word)]);
    }
    if forall|i: int| 0 <= i < rest.len() ==> text::is_white(#[trigger] rest[i]) {
        text::law_words_stand_between_white_space(rest, word, Seq::empty());
    }
}

} // verus!
