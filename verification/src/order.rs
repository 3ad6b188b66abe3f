//! The order of index keys: texts are ordered by the bytes of their UTF-8
//! encoding, as `String` itself is.

use vstd::prelude::*;
use vstd::utf8::encode_utf8;
use vstd::utf8::encode_utf8_decode_utf8;

verus! {

/// How one text stands to another in the order of keys.
#[derive(Clone, Copy, Debug, PartialEq, Eq, Structural)]
pub enum Rank {
    Before,
    Same,
    After,
}

/// `a` and `b` agree on their first `n` bytes.
pub open spec fn agree_upto(a: Seq<u8>, b: Seq<u8>, n: int) -> bool {
    &&& 0 <= n <= a.len()
    &&& n <= b.len()
    &&& forall|j: int| 0 <= j < n ==> a[j] == b[j]
}

/// `a` is a proper prefix of `b`, or holds the smaller byte where the two
/// first differ, at position `n`.
pub open spec fn splits_at(a: Seq<u8>, b: Seq<u8>, n: int) -> bool {
    &&& agree_upto(a, b, n)
    &&& n < b.len()
    &&& (n == a.len() || a[n] < b[n])
}

/// Lexicographic order on byte sequences.
pub open spec fn bytes_lt(a: Seq<u8>, b: Seq<u8>) -> bool {
    exists|n: int| splits_at(a, b, n)
}

/// The order of keys: `a` comes strictly before `b`.
pub open spec fn text_lt(a: Seq<char>, b: Seq<char>) -> bool {
    bytes_lt(encode_utf8(a), encode_utf8(b))
}

/// No byte sequence comes before itself.
pub proof fn lemma_bytes_lt_irreflexive(a: Seq<u8>)
    ensures
        !bytes_lt(a, a),
{
}

/// Lexicographic order is transitive.
pub proof fn lemma_bytes_lt_transitive(a: Seq<u8>, b: Seq<u8>, c: Seq<u8>)
    requires
        bytes_lt(a, b),
        bytes_lt(b, c),
    ensures
        bytes_lt(a, c),
{
    let m = choose|n: int| splits_at(a, b, n);
    let n = choose|n: int| splits_at(b, c, n);
    let k = if m <= n { m } else { n };
    assert(splits_at(a, c, k));
}

/// Of two different byte sequences one comes before the other.
pub proof fn lemma_bytes_lt_total(a: Seq<u8>, b: Seq<u8>, n: int)
    requires
        agree_upto(a, b, n),
        a != b,
    ensures
        bytes_lt(a, b) || bytes_lt(b, a),
    decreases a.len() - n,
{
    if n == a.len() {
        if n == b.len() {
            assert(a =~= b);
        } else {
            assert(splits_at(a, b, n));
        }
    } else if n == b.len() {
        assert(agree_upto(b, a, n));
        assert(splits_at(b, a, n));
    } else if a[n] < b[n] {
        assert(splits_at(a, b, n));
    } else if b[n] < a[n] {
        assert(agree_upto(b, a, n));
        assert(splits_at(b, a, n));
    } else {
        lemma_bytes_lt_total(a, b, n + 1);
    }
}

/// Of two different texts one comes before the other.
pub proof fn lemma_text_lt_total(a: Seq<char>, b: Seq<char>)
    requires
        a != b,
    ensures
        text_lt(a, b) || text_lt(b, a),
{
    if encode_utf8(a) == encode_utf8(b) {
        lemma_encoding_injective(a, b);
    }
    lemma_bytes_lt_total(encode_utf8(a), encode_utf8(b), 0);
}

/// No text comes before itself.
pub proof fn lemma_text_lt_irreflexive(a: Seq<char>)
    ensures
        !text_lt(a, a),
{
    lemma_bytes_lt_irreflexive(encode_utf8(a));
}

/// The order of keys is transitive.
pub proof fn lemma_text_lt_transitive(a: Seq<char>, b: Seq<char>, c: Seq<char>)
    requires
        text_lt(a, b),
        text_lt(b, c),
    ensures
        text_lt(a, c),
{
    lemma_bytes_lt_transitive(encode_utf8(a), encode_utf8(b), encode_utf8(c));
}

/// Two texts with the same encoding are the same text.
pub proof fn lemma_encoding_injective(a: Seq<char>, b: Seq<char>)
    requires
        encode_utf8(a) == encode_utf8(b),
    ensures
        a == b,
{
    encode_utf8_decode_utf8(a);
    encode_utf8_decode_utf8(b);
}

/// Ranks `a` against `b` in the order of keys.
pub fn rank(a: &str, b: &str) -> (r: Rank)
    ensures
        r == Rank::Before <==> text_lt(a@, b@),
        r == Rank::Same <==> a@ == b@,
        r == Rank::After <==> text_lt(b@, a@),
{
    let x = a.as_bytes();
    let y = b.as_bytes();
    let ghost xs = encode_utf8(a@);
    let ghost ys = encode_utf8(b@);
    let mut i: usize = 0;
    while i < x.len() && i < y.len()
        invariant
            x@ == xs,
            y@ == ys,
            xs == encode_utf8(a@),
            ys == encode_utf8(b@),
            agree_upto(xs, ys, i as int),
        decreases x@.len() - i,
    {
        if x[i] < y[i] {
            proof {
                assert(splits_at(xs, ys, i as int));
                lemma_strict(xs, ys);
                if a@ == b@ {
                    lemma_bytes_lt_irreflexive(xs);
                }
            }
            return Rank::Before;
        }
        if y[i] < x[i] {
            proof {
                assert(agree_upto(ys, xs, i as int));
                assert(splits_at(ys, xs, i as int));
                lemma_strict(ys, xs);
                if a@ == b@ {
                    lemma_bytes_lt_irreflexive(xs);
                }
            }
            return Rank::After;
        }
        i += 1;
    }
    if i < y.len() {
        proof {
            assert(splits_at(xs, ys, i as int));
            lemma_strict(xs, ys);
            if a@ == b@ {
                lemma_bytes_lt_irreflexive(xs);
            }
        }
        Rank::Before
    } else if i < x.len() {
        proof {
            assert(agree_upto(ys, xs, i as int));
            assert(splits_at(ys, xs, i as int));
            lemma_strict(ys, xs);
            if a@ == b@ {
                lemma_bytes_lt_irreflexive(xs);
            }
        }
        Rank::After
    } else {
        proof {
            assert(xs =~= ys);
            lemma_encoding_injective(a@, b@);
            lemma_bytes_lt_irreflexive(xs);
        }
        Rank::Same
    }
}

/// Says whether two texts are the same.
pub fn same_text(a: &str, b: &str) -> (same: bool)
    ensures
        same == (a@ == b@),
{
    match rank(a, b) {
        Rank::Same => true,
        _ => false,
    }
}

/// Of two byte sequences at most one comes before the other.
proof fn lemma_strict(a: Seq<u8>, b: Seq<u8>)
    requires
        bytes_lt(a, b),
    ensures
        !bytes_lt(b, a),
{
    if bytes_lt(b, a) {
        lemma_bytes_lt_transitive(a, b, a);
        lemma_bytes_lt_irreflexive(a);
    }
}

} // verus!
