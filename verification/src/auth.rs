//! Static bearer tokens.
//!
//! With no token configured every request passes. Otherwise a request has to carry
//! `Authorization: Bearer <token>` with one of the tokens.

use vstd::prelude::*;

use crate::text;
use crate::text::{same_text, strip_prefix};

verus! {

/// The configured tokens.
pub struct AuthTokens {
    tokens: Vec<String>,
}

impl View for AuthTokens {
    type V = Set<Seq<char>>;

    closed spec fn view(&self) -> Set<Seq<char>> {
        token_set(self.tokens@)
    }
}

/// The tokens of a list.
pub open spec fn token_set(tokens: Seq<String>) -> Set<Seq<char>> {
    Set::new(|t: Seq<char>| exists|i: int| 0 <= i < tokens.len() && (#[trigger] tokens[i])@ == t)
}

/// Whether a request with that `Authorization` header passes.
pub open spec fn authorized(tokens: Set<Seq<char>>, header: Option<Seq<char>>) -> bool {
    ||| tokens == Set::<Seq<char>>::empty()
    ||| match header {
        None => false,
        Some(h) => match text::after_prefix(h, "Bearer "@) {
            None => false,
            Some(token) => tokens.contains(token),
        },
    }
}

/// The text of a header, where there is one.
pub open spec fn header_text(header: Option<&str>) -> Option<Seq<char>> {
    match header {
        Some(h) => Some(h@),
        None => None,
    }
}

impl AuthTokens {
    /// Takes the configured tokens.
    pub fn new(tokens: Vec<String>) -> (r: Self)
        ensures
            r@ == token_set(tokens@),
    {
        AuthTokens { tokens }
    }

    /// Whether any token is configured.
    pub fn is_enabled(&self) -> (r: bool)
        ensures
            r == (self@ != Set::<Seq<char>>::empty()),
    {
        proof {
            if self.tokens@.len() == 0 {
                assert(self@ =~= Set::<Seq<char>>::empty());
            } else {
                assert(self.tokens@[0]@ == self.tokens@[0]@);
                assert(self@.contains(self.tokens@[0]@));
            }
        }
        self.tokens.len() > 0
    }

    /// Whether a token is configured.
    pub fn is_valid(&self, token: &str) -> (r: bool)
        ensures
            r == self@.contains(token@),
    {
        let mut i: usize = 0;
        while i < self.tokens.len()
            invariant
                i <= self.tokens@.len(),
                forall|j: int| 0 <= j < i ==> (#[trigger] self.tokens@[j])@ != token@,
            decreases self.tokens.len() - i,
        {
            if same_text(self.tokens[i].as_str(), token) {
                return true;
            }
            i = i + 1;
        }
        false
    }

    /// Whether a request with that `Authorization` header passes.
    pub fn check_header(&self, header_value: Option<&str>) -> (r: bool)
        ensures
            r == authorized(self@, header_text(header_value)),
    {
        if !self.is_enabled() {
            return true;
        }
        match header_value {
            None => false,
            Some(h) => match strip_prefix(h, "Bearer ") {
                None => false,
                Some(token) => self.is_valid(token),
            },
        }
    }
}

/// With tokens configured, a request without a header is refused; one with a configured
/// bearer token always passes.
pub proof fn law_configured_tokens_decide(tokens: Set<Seq<char>>, token: Seq<char>)
    requires
        tokens != Set::<Seq<char>>::empty(),
    ensures
        !authorized(tokens, None),
        authorized(tokens, Some("Bearer "@ + token)) <==> tokens.contains(token),
{
    let h = "Bearer "@ + token;
    let n = "Bearer "@.len() as int;
    assert(h.take(n) =~= "Bearer "@);
    assert(h.skip(n) =~= token);
}

/// With no token configured every request passes.
pub proof fn law_no_tokens_no_check(header: Option<Seq<char>>)
    ensures
        authorized(Set::empty(), header),
{
}

/// With tokens configured, a header passes exactly when it is the word `Bearer`, one space,
/// and one of the tokens as it was configured, letter for letter.
pub proof fn law_only_bearer_tokens_pass(tokens: Seq<String>, header: Seq<char>)
    requires
        tokens.len() > 0,
    ensures
        authorized(token_set(tokens), Some(header)) <==> exists|i: int|
            0 <= i < tokens.len() && header == seq!['B', 'e', 'a', 'r', 'e', 'r', ' '] + (
            #[trigger] tokens[i])@,
        !authorized(token_set(tokens), None),
        forall|t: Seq<char>| #[trigger]
            token_set(tokens).contains(t) <==> exists|i: int|
                0 <= i < tokens.len() && (#[trigger] tokens[i])@ == t,
{
    reveal_strlit("Bearer ");
    let bearer = seq!['B', 'e', 'a', 'r', 'e', 'r', ' '];
    assert("Bearer "@ =~= bearer);
    let set = token_set(tokens);
    assert(set.contains(tokens[0]@));
    text::law_prefixes_are_taken_off(header, bearer, Seq::empty(), ' ');
    if exists|i: int| 0 <= i < tokens.len() && header == bearer + (#[trigger] tokens[i])@ {
        let i = choose|i: int| 0 <= i < tokens.len() && header == bearer + (#[trigger] tokens[i])@;
        text::law_prefixes_are_taken_off(header, bearer, tokens[i]@, ' ');
        assert(set.contains(tokens[i]@));
    }
    if authorized(set, Some(header)) {
        let rest = text::after_prefix(header, bearer)->0;
        let i = choose|i: int| 0 <= i < tokens.len() && (#[trigger] tokens[i])@ == rest;
        assert(header == bearer + tokens[i]@);
    }
}

} // verus!
