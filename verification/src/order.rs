//! Lexicographic order on texts, byte strings and lists of labels.

use vstd::prelude::*;

use crate::text::to_chars;

verus! {

/// The order of `a` and `b` under a strict total order.
#[derive(Clone, Copy, PartialEq, Eq, Structural, Debug)]
pub enum Order {
    Less,
    Equal,
    Greater,
}

/// `less` is irreflexive, transitive and relates any two different elements.
pub open spec fn strict_total<T>(less: spec_fn(T, T) -> bool) -> bool {
    &&& forall|x: T| !#[trigger] less(x, x)
    &&& forall|x: T, y: T, z: T| #[trigger] less(x, y) && #[trigger] less(y, z) ==> less(x, z)
    &&& forall|x: T, y: T| x != y ==> #[trigger] less(x, y) || less(y, x)
}

/// `a` comes before `b` when elements are ordered by `less`.
pub open spec fn lex_lt<T>(a: Seq<T>, b: Seq<T>, less: spec_fn(T, T) -> bool) -> bool
    decreases a.len(),
{
    if b.len() == 0 {
        false
    } else if a.len() == 0 {
        true
    } else if a[0] == b[0] {
        lex_lt(a.drop_first(), b.drop_first(), less)
    } else {
        less(a[0], b[0])
    }
}

pub open spec fn char_less() -> spec_fn(char, char) -> bool {
    |x: char, y: char| x < y
}

pub open spec fn byte_less() -> spec_fn(u8, u8) -> bool {
    |x: u8, y: u8| x < y
}

/// Order of texts by code point.
pub open spec fn text_lt(a: Seq<char>, b: Seq<char>) -> bool {
    lex_lt(a, b, char_less())
}

/// Order of byte strings, the order storage keys are kept in.
pub open spec fn bytes_lt(a: Seq<u8>, b: Seq<u8>) -> bool {
    lex_lt(a, b, byte_less())
}

/// Order of `(name, value)` labels: by name, then by value.
pub open spec fn label_less() -> spec_fn((Seq<char>, Seq<char>), (Seq<char>, Seq<char>)) -> bool {
    |x: (Seq<char>, Seq<char>), y: (Seq<char>, Seq<char>)|
        text_lt(x.0, y.0) || (x.0 == y.0 && text_lt(x.1, y.1))
}

/// Order of label lists.
pub open spec fn labels_lt(
    a: Seq<(Seq<char>, Seq<char>)>,
    b: Seq<(Seq<char>, Seq<char>)>,
) -> bool {
    lex_lt(a, b, label_less())
}

pub proof fn lemma_lex_irreflexive<T>(a: Seq<T>, less: spec_fn(T, T) -> bool)
    requires
        strict_total(less),
    ensures
        !lex_lt(a, a, less),
    decreases a.len(),
{
    if a.len() > 0 {
        lemma_lex_irreflexive(a.drop_first(), less);
    }
}

pub proof fn lemma_lex_transitive<T>(
    a: Seq<T>,
    b: Seq<T>,
    c: Seq<T>,
    less: spec_fn(T, T) -> bool,
)
    requires
        strict_total(less),
        lex_lt(a, b, less),
        lex_lt(b, c, less),
    ensures
        lex_lt(a, c, less),
    decreases a.len(),
{
    if a.len() > 0 {
        if a[0] == b[0] && b[0] == c[0] {
            lemma_lex_transitive(a.drop_first(), b.drop_first(), c.drop_first(), less);
        } else if a[0] != b[0] && b[0] != c[0] {
            assert(less(a[0], b[0]) && less(b[0], c[0]));
            assert(less(a[0], c[0]));
            assert(!less(a[0], a[0]));
        }
    }
}

pub proof fn lemma_lex_total<T>(a: Seq<T>, b: Seq<T>, less: spec_fn(T, T) -> bool)
    requires
        strict_total(less),
    ensures
        a == b || lex_lt(a, b, less) || lex_lt(b, a, less),
    decreases a.len(),
{
    if a.len() == 0 || b.len() == 0 {
        if a.len() == b.len() {
            assert(a =~= b);
        }
    } else if a[0] == b[0] {
        lemma_lex_total(a.drop_first(), b.drop_first(), less);
        if a.drop_first() == b.drop_first() {
            assert(a =~= seq![a[0]] + a.drop_first());
            assert(b =~= seq![b[0]] + b.drop_first());
        }
    } else {
        assert(less(a[0], b[0]) || less(b[0], a[0]));
    }
}

/// The order of texts is a strict total order.
pub proof fn lemma_text_order_total()
    ensures
        forall|a: Seq<char>| !#[trigger] text_lt(a, a),
        forall|a: Seq<char>, b: Seq<char>, c: Seq<char>| #[trigger]
            text_lt(a, b) && #[trigger] text_lt(b, c) ==> text_lt(a, c),
        forall|a: Seq<char>, b: Seq<char>|
            a != b ==> #[trigger] text_lt(a, b) || text_lt(b, a),
{
    assert(strict_total(char_less()));
    assert forall|a: Seq<char>| !#[trigger] text_lt(a, a) by {
        lemma_lex_irreflexive(a, char_less());
    }
    assert forall|a: Seq<char>, b: Seq<char>, c: Seq<char>| #[trigger]
        text_lt(a, b) && #[trigger] text_lt(b, c) implies text_lt(a, c) by {
        lemma_lex_transitive(a, b, c, char_less());
    }
    assert forall|a: Seq<char>, b: Seq<char>| a != b implies #[trigger] text_lt(a, b) || text_lt(
        b,
        a,
    ) by {
        lemma_lex_total(a, b, char_less());
    }
}

/// The order of byte strings is a strict total order.
pub proof fn lemma_bytes_order_total()
    ensures
        forall|a: Seq<u8>| !#[trigger] bytes_lt(a, a),
        forall|a: Seq<u8>, b: Seq<u8>, c: Seq<u8>| #[trigger]
            bytes_lt(a, b) && #[trigger] bytes_lt(b, c) ==> bytes_lt(a, c),
        forall|a: Seq<u8>, b: Seq<u8>| a != b ==> #[trigger] bytes_lt(a, b) || bytes_lt(b, a),
{
    assert(strict_total(byte_less()));
    assert forall|a: Seq<u8>| !#[trigger] bytes_lt(a, a) by {
        lemma_lex_irreflexive(a, byte_less());
    }
    assert forall|a: Seq<u8>, b: Seq<u8>, c: Seq<u8>| #[trigger]
        bytes_lt(a, b) && #[trigger] bytes_lt(b, c) implies bytes_lt(a, c) by {
        lemma_lex_transitive(a, b, c, byte_less());
    }
    assert forall|a: Seq<u8>, b: Seq<u8>| a != b implies #[trigger] bytes_lt(a, b) || bytes_lt(
        b,
        a,
    ) by {
        lemma_lex_total(a, b, byte_less());
    }
}

/// The order of label lists is a strict total order.
pub proof fn lemma_labels_order_total()
    ensures
        strict_total(label_less()),
        forall|a: Seq<(Seq<char>, Seq<char>)>| !#[trigger] labels_lt(a, a),
        forall|
            a: Seq<(Seq<char>, Seq<char>)>,
            b: Seq<(Seq<char>, Seq<char>)>,
            c: Seq<(Seq<char>, Seq<char>)>,
        | #[trigger]
            labels_lt(a, b) && #[trigger] labels_lt(b, c) ==> labels_lt(a, c),
        forall|a: Seq<(Seq<char>, Seq<char>)>, b: Seq<(Seq<char>, Seq<char>)>|
            a != b ==> #[trigger] labels_lt(a, b) || labels_lt(b, a),
{
    lemma_text_order_total();
    let less = label_less();
    assert(strict_total(less)) by {
        assert forall|x: (Seq<char>, Seq<char>), y: (Seq<char>, Seq<char>)| x
            != y implies #[trigger] less(x, y) || less(y, x) by {
            assert(x.0 != y.0 || x.1 != y.1);
        }
    }
    assert forall|a: Seq<(Seq<char>, Seq<char>)>| !#[trigger] labels_lt(a, a) by {
        lemma_lex_irreflexive(a, less);
    }
    assert forall|
        a: Seq<(Seq<char>, Seq<char>)>,
        b: Seq<(Seq<char>, Seq<char>)>,
        c: Seq<(Seq<char>, Seq<char>)>,
    | #[trigger]
        labels_lt(a, b) && #[trigger] labels_lt(b, c) implies labels_lt(a, c) by {
        lemma_lex_transitive(a, b, c, less);
    }
    assert forall|a: Seq<(Seq<char>, Seq<char>)>, b: Seq<(Seq<char>, Seq<char>)>| a
        != b implies #[trigger] labels_lt(a, b) || labels_lt(b, a) by {
        lemma_lex_total(a, b, less);
    }
}

/// Compares two texts, given as their code points.
pub fn order_of_chars(a: &[char], b: &[char]) -> (r: Order)
    ensures
        match r {
            Order::Less => text_lt(a@, b@),
            Order::Equal => a@ == b@,
            Order::Greater => text_lt(b@, a@),
        },
        r is Equal <==> a@ == b@,
{
    proof {
        lemma_text_order_total();
        assert(a@.skip(0) =~= a@);
        assert(b@.skip(0) =~= b@);
    }
    let mut i: usize = 0;
    while i < a.len() && i < b.len()
        invariant
            i <= a@.len(),
            i <= b@.len(),
            text_lt(a@.skip(i as int), b@.skip(i as int)) ==> text_lt(a@, b@) && a@ != b@,
            text_lt(b@.skip(i as int), a@.skip(i as int)) ==> text_lt(b@, a@) && a@ != b@,
            a@.skip(i as int) == b@.skip(i as int) ==> a@ == b@,
        decreases a.len() - i,
    {
        proof {
            lemma_text_order_total();
            let ra = a@.skip(i as int);
            let rb = b@.skip(i as int);
            assert(ra.drop_first() =~= a@.skip(i + 1));
            assert(rb.drop_first() =~= b@.skip(i + 1));
            assert(ra =~= seq![ra[0]] + ra.drop_first());
            assert(rb =~= seq![rb[0]] + rb.drop_first());
        }
        if a[i] < b[i] {
            return Order::Less;
        }
        if b[i] < a[i] {
            return Order::Greater;
        }
        i = i + 1;
    }
    if i < b.len() {
        Order::Less
    } else if i < a.len() {
        Order::Greater
    } else {
        assert(a@.skip(i as int) =~= b@.skip(i as int));
        Order::Equal
    }
}

/// Compares two texts by code point.
pub fn order_of_texts(a: &str, b: &str) -> (r: Order)
    ensures
        match r {
            Order::Less => text_lt(a@, b@),
            Order::Equal => a@ == b@,
            Order::Greater => text_lt(b@, a@),
        },
        r is Equal <==> a@ == b@,
{
    let x: Vec<char> = to_chars(a);
    let y: Vec<char> = to_chars(b);
    order_of_chars(&x, &y)
}

/// Compares two byte strings.
pub fn order_of_bytes(a: &[u8], b: &[u8]) -> (r: Order)
    ensures
        match r {
            Order::Less => bytes_lt(a@, b@),
            Order::Equal => a@ == b@,
            Order::Greater => bytes_lt(b@, a@),
        },
        r is Equal <==> a@ == b@,
{
    proof {
        lemma_bytes_order_total();
        assert(a@.skip(0) =~= a@);
        assert(b@.skip(0) =~= b@);
    }
    let mut i: usize = 0;
    while i < a.len() && i < b.len()
        invariant
            i <= a@.len(),
            i <= b@.len(),
            bytes_lt(a@.skip(i as int), b@.skip(i as int)) ==> bytes_lt(a@, b@) && a@ != b@,
            bytes_lt(b@.skip(i as int), a@.skip(i as int)) ==> bytes_lt(b@, a@) && a@ != b@,
            a@.skip(i as int) == b@.skip(i as int) ==> a@ == b@,
        decreases a.len() - i,
    {
        proof {
            lemma_bytes_order_total();
            let ra = a@.skip(i as int);
            let rb = b@.skip(i as int);
            assert(ra.drop_first() =~= a@.skip(i + 1));
            assert(rb.drop_first() =~= b@.skip(i + 1));
            assert(ra =~= seq![ra[0]] + ra.drop_first());
            assert(rb =~= seq![rb[0]] + rb.drop_first());
        }
        if a[i] < b[i] {
            return Order::Less;
        }
        if b[i] < a[i] {
            return Order::Greater;
        }
        i = i + 1;
    }
    if i < b.len() {
        Order::Less
    } else if i < a.len() {
        Order::Greater
    } else {
        assert(a@.skip(i as int) =~= b@.skip(i as int));
        Order::Equal
    }
}

/// Lists of one length are ordered by them first, then by what follows them.
pub proof fn lemma_lex_append<T>(
    p: Seq<T>,
    q: Seq<T>,
    x: Seq<T>,
    y: Seq<T>,
    less: spec_fn(T, T) -> bool,
)
    requires
        strict_total(less),
        p.len() == q.len(),
    ensures
        lex_lt(p + x, q + y, less) <==> lex_lt(p, q, less) || (p == q && lex_lt(x, y, less)),
    decreases p.len(),
{
    if p.len() == 0 {
        assert(p =~= q);
        assert(p + x =~= x);
        assert(q + y =~= y);
    } else {
        lemma_lex_append(p.drop_first(), q.drop_first(), x, y, less);
        assert((p + x).drop_first() =~= p.drop_first() + x);
        assert((q + y).drop_first() =~= q.drop_first() + y);
        assert((p + x)[0] == p[0]);
        assert((q + y)[0] == q[0]);
        if p[0] == q[0] {
            assert(p == q <==> p.drop_first() == q.drop_first()) by {
                if p.drop_first() == q.drop_first() {
                    assert(p =~= seq![p[0]] + p.drop_first());
                    assert(q =~= seq![q[0]] + q.drop_first());
                }
            }
        }
    }
}

proof fn lemma_lex_first_difference<T>(
    p: Seq<T>,
    x: T,
    r: Seq<T>,
    y: T,
    t: Seq<T>,
    less: spec_fn(T, T) -> bool,
)
    requires
        x != y,
    ensures
        lex_lt(p + seq![x] + r, p + seq![y] + t, less) <==> less(x, y),
        lex_lt(p, p + seq![x] + r, less),
        !lex_lt(p + seq![x] + r, p, less),
        !lex_lt(p, p, less),
    decreases p.len(),
{
    let a = p + seq![x] + r;
    let b = p + seq![y] + t;
    if p.len() == 0 {
        assert(a[0] == x);
        assert(b[0] == y);
    } else {
        let q = p.drop_first();
        lemma_lex_first_difference(q, x, r, y, t, less);
        assert(a.drop_first() =~= q + seq![x] + r);
        assert(b.drop_first() =~= q + seq![y] + t);
        assert(a[0] == p[0]);
        assert(b[0] == p[0]);
    }
}

/// Texts are ordered by the first character in which they differ, and a text comes before
/// any longer one that it starts.
pub proof fn law_texts_differ_at_the_first_character(
    p: Seq<char>,
    x: char,
    r: Seq<char>,
    y: char,
    t: Seq<char>,
)
    requires
        x != y,
    ensures
        text_lt(p + seq![x] + r, p + seq![y] + t) <==> x < y,
        text_lt(p, p + seq![x] + r),
        !text_lt(p + seq![x] + r, p),
        !text_lt(p, p),
{
    lemma_lex_first_difference(p, x, r, y, t, char_less());
}

/// Byte strings are ordered by the first byte in which they differ, and one comes before any
/// longer one that it starts.
pub proof fn law_bytes_differ_at_the_first_byte(
    p: Seq<u8>,
    x: u8,
    r: Seq<u8>,
    y: u8,
    t: Seq<u8>,
)
    requires
        x != y,
    ensures
        bytes_lt(p + seq![x] + r, p + seq![y] + t) <==> x < y,
        bytes_lt(p, p + seq![x] + r),
        !bytes_lt(p + seq![x] + r, p),
        !bytes_lt(p, p),
{
    lemma_lex_first_difference(p, x, r, y, t, byte_less());
}

/// Label lists are ordered by the first label in which they differ, that one by its name
/// and under one name by its value; a list comes before any longer one that it starts.
pub proof fn law_labels_differ_at_the_first_label(
    p: Seq<(Seq<char>, Seq<char>)>,
    x: (Seq<char>, Seq<char>),
    r: Seq<(Seq<char>, Seq<char>)>,
    y: (Seq<char>, Seq<char>),
    t: Seq<(Seq<char>, Seq<char>)>,
)
    requires
        x != y,
    ensures
        x.0 != y.0 ==> (labels_lt(p + seq![x] + r, p + seq![y] + t) <==> text_lt(x.0, y.0)),
        x.0 == y.0 ==> (labels_lt(p + seq![x] + r, p + seq![y] + t) <==> text_lt(x.1, y.1)),
        labels_lt(p, p + seq![x] + r),
        !labels_lt(p + seq![x] + r, p),
{
    lemma_lex_first_difference(p, x, r, y, t, label_less());
    lemma_text_order_total();
}

} // verus!
