//! The order in which labels are ranked: byte-wise lexicographic order of
//! their UTF-8 encodings, which is the order `String` compares by.

use vstd::prelude::*;
use vstd::utf8::*;

verus! {

/// `a` sorts strictly before `b` in lexicographic byte order: at the first
/// position where they differ the byte of `a` is smaller, or `a` is a proper
/// prefix of `b`.
pub open spec fn bytes_lt(a: Seq<u8>, b: Seq<u8>) -> bool
    decreases a.len(),
{
    if a.len() == 0 {
        b.len() > 0
    } else if b.len() == 0 {
        false
    } else if a[0] != b[0] {
        a[0] < b[0]
    } else {
        bytes_lt(a.drop_first(), b.drop_first())
    }
}

/// The bytes a label is compared by.
pub open spec fn label_bytes(s: Seq<char>) -> Seq<u8> {
    encode_utf8(s)
}

/// `a` sorts strictly before `b` as a label.
pub open spec fn label_lt(a: Seq<char>, b: Seq<char>) -> bool {
    bytes_lt(label_bytes(a), label_bytes(b))
}

/// No byte string sorts before itself.
pub proof fn lemma_bytes_lt_irreflexive(a: Seq<u8>)
    ensures
        !bytes_lt(a, a),
    decreases a.len(),
{
    if a.len() > 0 {
        lemma_bytes_lt_irreflexive(a.drop_first());
    }
}

/// Two byte strings never sort before each other.
pub proof fn lemma_bytes_lt_asymmetric(a: Seq<u8>, b: Seq<u8>)
    ensures
        !(bytes_lt(a, b) && bytes_lt(b, a)),
    decreases a.len(),
{
    if a.len() > 0 && b.len() > 0 && a[0] == b[0] {
        lemma_bytes_lt_asymmetric(a.drop_first(), b.drop_first());
    }
}

/// The byte order is transitive.
pub proof fn lemma_bytes_lt_transitive(a: Seq<u8>, b: Seq<u8>, c: Seq<u8>)
    requires
        bytes_lt(a, b),
        bytes_lt(b, c),
    ensures
        bytes_lt(a, c),
    decreases a.len(),
{
    if a.len() > 0 && b.len() > 0 && c.len() > 0 && a[0] == b[0] && b[0] == c[0] {
        lemma_bytes_lt_transitive(a.drop_first(), b.drop_first(), c.drop_first());
    }
}

/// Two different byte strings are ordered one way or the other.
pub proof fn lemma_bytes_lt_total(a: Seq<u8>, b: Seq<u8>)
    requires
        a != b,
    ensures
        bytes_lt(a, b) || bytes_lt(b, a),
    decreases a.len(),
{
    if a.len() == 0 {
        assert(b.len() > 0) by {
            if b.len() == 0 {
                assert(a =~= b);
            }
        }
    } else if b.len() == 0 {
    } else if a[0] == b[0] {
        if a.drop_first() == b.drop_first() {
            assert(a =~= seq![a[0]] + a.drop_first());
            assert(b =~= seq![b[0]] + b.drop_first());
        }
        lemma_bytes_lt_total(a.drop_first(), b.drop_first());
    }
}

/// Different labels have different encodings.
pub proof fn lemma_label_bytes_injective(a: Seq<char>, b: Seq<char>)
    requires
        label_bytes(a) == label_bytes(b),
    ensures
        a == b,
{
    encode_utf8_decode_utf8(a);
    encode_utf8_decode_utf8(b);
}

/// The label order is a strict total order.
pub proof fn lemma_label_lt_strict_total(a: Seq<char>, b: Seq<char>, c: Seq<char>)
    ensures
        !label_lt(a, a),
        !(label_lt(a, b) && label_lt(b, a)),
        label_lt(a, b) && label_lt(b, c) ==> label_lt(a, c),
        a != b ==> label_lt(a, b) || label_lt(b, a),
{
    lemma_bytes_lt_irreflexive(label_bytes(a));
    lemma_bytes_lt_asymmetric(label_bytes(a), label_bytes(b));
    if label_lt(a, b) && label_lt(b, c) {
        lemma_bytes_lt_transitive(label_bytes(a), label_bytes(b), label_bytes(c));
    }
    if a != b {
        if label_bytes(a) == label_bytes(b) {
            lemma_label_bytes_injective(a, b);
        }
        lemma_bytes_lt_total(label_bytes(a), label_bytes(b));
    }
}

/// Lexicographic order, first case: when two byte strings agree on their
/// first `k` bytes and byte `k` of `a` is smaller than byte `k` of `b`,
/// `a` sorts before `b`, whatever their lengths.
pub proof fn lemma_bytes_lt_first_difference(a: Seq<u8>, b: Seq<u8>, k: int)
    requires
        0 <= k < a.len(),
        k < b.len(),
        a.take(k) == b.take(k),
        a[k] < b[k],
    ensures
        bytes_lt(a, b),
    decreases k,
{
    if k > 0 {
        assert(a[0] == a.take(k)[0]);
        assert(b[0] == b.take(k)[0]);
        assert(a.drop_first().take(k - 1) =~= a.take(k).drop_first());
        assert(b.drop_first().take(k - 1) =~= b.take(k).drop_first());
        lemma_bytes_lt_first_difference(a.drop_first(), b.drop_first(), k - 1);
    }
}

/// Lexicographic order, second case: a proper prefix sorts before every
/// extension of it.
pub proof fn lemma_bytes_lt_proper_prefix(a: Seq<u8>, b: Seq<u8>)
    requires
        a.len() < b.len(),
        b.take(a.len() as int) == a,
    ensures
        bytes_lt(a, b),
    decreases a.len(),
{
    if a.len() > 0 {
        assert(a[0] == b.take(a.len() as int)[0]);
        assert(b.drop_first().take(a.len() - 1) =~= a.drop_first());
        lemma_bytes_lt_proper_prefix(a.drop_first(), b.drop_first());
    }
}

/// Every byte string sorts before it only through one of the two cases of
/// lexicographic order: a first differing byte that is smaller, or being
/// a proper prefix.
pub proof fn lemma_bytes_lt_cases(a: Seq<u8>, b: Seq<u8>)
    requires
        bytes_lt(a, b),
    ensures
        (exists|k: int|
            0 <= k < a.len() && k < b.len() && a.take(k) == b.take(k) && #[trigger] a[k] < b[k])
            || (a.len() < b.len() && b.take(a.len() as int) == a),
    decreases a.len(),
{
    if a.len() == 0 {
        assert(b.take(0) =~= a);
    } else if a[0] != b[0] {
        assert(a.take(0) =~= b.take(0));
        assert(a[0] < b[0]);
    } else {
        let (a1, b1) = (a.drop_first(), b.drop_first());
        lemma_bytes_lt_cases(a1, b1);
        if exists|k: int|
            0 <= k < a1.len() && k < b1.len() && a1.take(k) == b1.take(k) && #[trigger] a1[k]
                < b1[k] {
            let k = choose|k: int|
                0 <= k < a1.len() && k < b1.len() && a1.take(k) == b1.take(k) && #[trigger] a1[k]
                    < b1[k];
            assert(a.take(k + 1) =~= seq![a[0]] + a1.take(k));
            assert(b.take(k + 1) =~= seq![b[0]] + b1.take(k));
            assert(a[k + 1] == a1[k] && b[k + 1] == b1[k]);
        } else {
            assert(b.take(a.len() as int) =~= seq![b[0]] + b1.take(a1.len() as int));
            assert(a =~= seq![a[0]] + a1);
        }
    }
}

/// The bytes of two joined labels are the bytes of each, joined.
pub proof fn lemma_label_bytes_concat(s: Seq<char>, t: Seq<char>)
    ensures
        label_bytes(s + t) == label_bytes(s) + label_bytes(t),
    decreases s.len(),
{
    if s.len() == 0 {
        assert(s + t =~= t);
        assert(label_bytes(s) =~= Seq::<u8>::empty());
        assert(label_bytes(s) + label_bytes(t) =~= label_bytes(t));
    } else {
        assert((s + t)[0] == s[0]);
        assert((s + t).drop_first() =~= s.drop_first() + t);
        lemma_label_bytes_concat(s.drop_first(), t);
        assert(encode_utf8(s + t) == encode_scalar((s + t)[0] as u32) + encode_utf8(
            (s + t).drop_first(),
        ));
        assert(encode_utf8(s) == encode_scalar(s[0] as u32) + encode_utf8(s.drop_first()));
        assert(label_bytes(s + t) =~= label_bytes(s) + label_bytes(t));
    }
}

/// A non-empty label has at least one byte.
pub proof fn lemma_label_bytes_nonempty(t: Seq<char>)
    requires
        t.len() > 0,
    ensures
        label_bytes(t).len() > 0,
{
    assert(encode_utf8(t) == encode_scalar(t[0] as u32) + encode_utf8(t.drop_first()));
}

/// Labels are ordered by the lexicographic order of their UTF-8 bytes, as
/// `String` compares: where the bytes of `a` and `b` first differ, the
/// smaller byte sorts first.
pub proof fn lemma_label_lt_first_difference(a: Seq<char>, b: Seq<char>, k: int)
    requires
        0 <= k < encode_utf8(a).len(),
        k < encode_utf8(b).len(),
        encode_utf8(a).take(k) == encode_utf8(b).take(k),
        encode_utf8(a)[k] < encode_utf8(b)[k],
    ensures
        label_lt(a, b),
        !label_lt(b, a),
{
    lemma_bytes_lt_first_difference(encode_utf8(a), encode_utf8(b), k);
    lemma_bytes_lt_asymmetric(encode_utf8(a), encode_utf8(b));
}

/// A label sorts before every longer label that starts with it.
pub proof fn lemma_label_lt_extension(s: Seq<char>, t: Seq<char>)
    requires
        t.len() > 0,
    ensures
        label_lt(s, s + t),
        !label_lt(s + t, s),
{
    lemma_label_bytes_concat(s, t);
    lemma_label_bytes_nonempty(t);
    let (bs, bt) = (encode_utf8(s), encode_utf8(t));
    assert((bs + bt).take(bs.len() as int) =~= bs);
    lemma_bytes_lt_proper_prefix(bs, bs + bt);
    lemma_bytes_lt_asymmetric(bs, bs + bt);
}

/// Compares two byte strings in lexicographic order.
pub fn bytes_less(a: &[u8], b: &[u8]) -> (r: bool)
    ensures
        r == bytes_lt(a@, b@),
{
    let mut i: usize = 0;
    assert(a@.skip(0) =~= a@);
    assert(b@.skip(0) =~= b@);
    while i < a.len() && i < b.len()
        invariant
            i <= a@.len(),
            i <= b@.len(),
            bytes_lt(a@, b@) == bytes_lt(a@.skip(i as int), b@.skip(i as int)),
        decreases a@.len() - i,
    {
        if a[i] != b[i] {
            return a[i] < b[i];
        }
        assert(a@.skip(i as int).drop_first() =~= a@.skip(i + 1));
        assert(b@.skip(i as int).drop_first() =~= b@.skip(i + 1));
        i = i + 1;
    }
    i < b.len()
}

/// Tells whether label `a` sorts strictly before label `b`.
pub fn label_less(a: &String, b: &String) -> (r: bool)
    ensures
        r == label_lt(a@, b@),
{
    bytes_less(a.as_str().as_bytes(), b.as_str().as_bytes())
}

} // verus!
