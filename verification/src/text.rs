//! Comparing texts: equality, and the order in which window names are listed.
//!
//! Texts are ordered as `str` orders them: byte by byte over their UTF-8
//! encoding, a proper prefix before any text that it starts.

use vstd::prelude::*;
use vstd::string::*;
use vstd::utf8::*;

verus! {

/// Whether `a` comes before `b` byte by byte, given that they agree below index `i`.
pub open spec fn bytes_before_from(a: Seq<u8>, b: Seq<u8>, i: int) -> bool
    decreases b.len() - i,
{
    if i >= b.len() {
        false
    } else if i >= a.len() {
        true
    } else if a[i] != b[i] {
        a[i] < b[i]
    } else {
        bytes_before_from(a, b, i + 1)
    }
}

/// Whether `a` comes strictly before `b` in lexicographic byte order.
pub open spec fn bytes_before(a: Seq<u8>, b: Seq<u8>) -> bool {
    bytes_before_from(a, b, 0)
}

/// Whether the text `a` comes strictly before the text `b`.
pub open spec fn text_before(a: Seq<char>, b: Seq<char>) -> bool {
    bytes_before(encode_utf8(a), encode_utf8(b))
}

/// Whether the pair `(a1, a2)` comes strictly before the pair `(b1, b2)`:
/// by the first texts, and by the second where the first are the same.
pub open spec fn pair_before(a1: Seq<char>, a2: Seq<char>, b1: Seq<char>, b2: Seq<char>) -> bool {
    text_before(a1, b1) || (a1 == b1 && text_before(a2, b2))
}

/// How two texts stand to each other.
#[derive(Debug, Clone, Copy, PartialEq, Eq, Structural)]
pub enum Standing {
    Before,
    Same,
    After,
}

/// How `a` stands to `b`.
pub open spec fn standing(a: Seq<char>, b: Seq<char>) -> Standing {
    if a == b {
        Standing::Same
    } else if text_before(a, b) {
        Standing::Before
    } else {
        Standing::After
    }
}

/// How the text `a` stands to the text `b`.
pub fn compare_text(a: &str, b: &str) -> (s: Standing)
    ensures
        s == standing(a@, b@),
        s == Standing::After <==> text_before(b@, a@),
{
    let x: &[u8] = a.as_bytes();
    let y: &[u8] = b.as_bytes();
    let mut i: usize = 0;
    while i < x.len() && i < y.len()
        invariant
            i <= x.len(),
            i <= y.len(),
            x@ == encode_utf8(a@),
            y@ == encode_utf8(b@),
            forall|j: int| 0 <= j < i ==> x@[j] == y@[j],
            bytes_before(x@, y@) == bytes_before_from(x@, y@, i as int),
            bytes_before(y@, x@) == bytes_before_from(y@, x@, i as int),
        decreases x.len() - i,
    {
        if x[i] != y[i] {
            proof {
                lemma_texts_differ(a@, b@, i as int);
            }
            if x[i] < y[i] {
                return Standing::Before;
            }
            return Standing::After;
        }
        i = i + 1;
    }
    if x.len() == y.len() {
        proof {
            assert(x@ =~= y@);
            lemma_same_bytes_same_text(a@, b@);
        }
        Standing::Same
    } else {
        proof {
            if a@ == b@ {
                assert(x@.len() == y@.len());
            }
        }
        if x.len() < y.len() {
            Standing::Before
        } else {
            Standing::After
        }
    }
}

/// Whether two texts are the same.
pub fn same_text(a: &str, b: &str) -> (same: bool)
    ensures
        same == (a@ == b@),
{
    match compare_text(a, b) {
        Standing::Same => true,
        _ => false,
    }
}

/// Texts with the same encoding are the same.
pub proof fn lemma_same_bytes_same_text(a: Seq<char>, b: Seq<char>)
    requires
        encode_utf8(a) == encode_utf8(b),
    ensures
        a == b,
{
    encode_utf8_decode_utf8(a);
    encode_utf8_decode_utf8(b);
}

/// Texts whose encodings differ at some byte are not the same.
pub proof fn lemma_texts_differ(a: Seq<char>, b: Seq<char>, i: int)
    requires
        0 <= i < encode_utf8(a).len(),
        i < encode_utf8(b).len(),
        encode_utf8(a)[i] != encode_utf8(b)[i],
    ensures
        a != b,
{
}

/// No sequence comes before itself.
pub proof fn lemma_bytes_before_irreflexive(a: Seq<u8>, i: int)
    requires
        0 <= i,
    ensures
        !bytes_before_from(a, a, i),
    decreases a.len() - i,
{
    if i < a.len() {
        lemma_bytes_before_irreflexive(a, i + 1);
    }
}

/// Of two sequences at most one comes before the other.
pub proof fn lemma_bytes_before_asymmetric(a: Seq<u8>, b: Seq<u8>, i: int)
    requires
        0 <= i,
        bytes_before_from(a, b, i),
    ensures
        !bytes_before_from(b, a, i),
    decreases b.len() - i,
{
    if i < a.len() && i < b.len() && a[i] == b[i] {
        lemma_bytes_before_asymmetric(a, b, i + 1);
    }
}

/// What comes before something that comes before a third comes before the third.
pub proof fn lemma_bytes_before_transitive(a: Seq<u8>, b: Seq<u8>, c: Seq<u8>, i: int)
    requires
        0 <= i,
        bytes_before_from(a, b, i),
        bytes_before_from(b, c, i),
    ensures
        bytes_before_from(a, c, i),
    decreases c.len() - i,
{
    if i < a.len() && a[i] == b[i] && b[i] == c[i] {
        lemma_bytes_before_transitive(a, b, c, i + 1);
    }
}

/// Two sequences that agree below `i`, neither of which comes before the other
/// from `i` on, are the same.
pub proof fn lemma_bytes_before_total(a: Seq<u8>, b: Seq<u8>, i: int)
    requires
        0 <= i <= a.len(),
        i <= b.len(),
        forall|j: int| 0 <= j < i ==> a[j] == b[j],
        !bytes_before_from(a, b, i),
        !bytes_before_from(b, a, i),
    ensures
        a == b,
    decreases a.len() - i,
{
    if i < a.len() && i < b.len() {
        lemma_bytes_before_total(a, b, i + 1);
    } else {
        assert(a =~= b);
    }
}

/// The order of texts is strict: no text comes before itself, and of two texts
/// at most one comes before the other.
pub proof fn lemma_text_before_strict(a: Seq<char>, b: Seq<char>)
    ensures
        !text_before(a, a),
        text_before(a, b) ==> !text_before(b, a),
{
    lemma_bytes_before_irreflexive(encode_utf8(a), 0);
    if text_before(a, b) {
        lemma_bytes_before_asymmetric(encode_utf8(a), encode_utf8(b), 0);
    }
}

/// The order of texts is transitive.
pub proof fn lemma_text_before_transitive(a: Seq<char>, b: Seq<char>, c: Seq<char>)
    requires
        text_before(a, b),
        text_before(b, c),
    ensures
        text_before(a, c),
{
    lemma_bytes_before_transitive(encode_utf8(a), encode_utf8(b), encode_utf8(c), 0);
}

/// The order of texts is total: two different texts are ordered one way or the other.
pub proof fn lemma_text_before_total(a: Seq<char>, b: Seq<char>)
    ensures
        a == b || text_before(a, b) || text_before(b, a),
{
    if !text_before(a, b) && !text_before(b, a) {
        lemma_bytes_before_total(encode_utf8(a), encode_utf8(b), 0);
        lemma_same_bytes_same_text(a, b);
    }
}

/// The order of pairs of texts is strict, transitive and total, as that of texts is.
pub proof fn lemma_pair_before_order(
    a1: Seq<char>,
    a2: Seq<char>,
    b1: Seq<char>,
    b2: Seq<char>,
    c1: Seq<char>,
    c2: Seq<char>,
)
    ensures
        !pair_before(a1, a2, a1, a2),
        pair_before(a1, a2, b1, b2) ==> !pair_before(b1, b2, a1, a2),
        pair_before(a1, a2, b1, b2) && pair_before(b1, b2, c1, c2) ==> pair_before(a1, a2, c1, c2),
        (a1 == b1 && a2 == b2) || pair_before(a1, a2, b1, b2) || pair_before(b1, b2, a1, a2),
{
    lemma_text_before_strict(a1, b1);
    lemma_text_before_strict(a2, b2);
    lemma_text_before_strict(b1, a1);
    lemma_text_before_strict(b2, a2);
    lemma_text_before_strict(b1, c1);
    lemma_text_before_total(a1, b1);
    lemma_text_before_total(a2, b2);
    if text_before(a1, b1) && text_before(b1, c1) {
        lemma_text_before_transitive(a1, b1, c1);
    }
    if text_before(a2, b2) && text_before(b2, c2) {
        lemma_text_before_transitive(a2, b2, c2);
    }
}

} // verus!
