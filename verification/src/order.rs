//! Orderings and sequence facts shared by the reconstructions' sorts: a
//! total byte-lexicographic order on strings (for sorting by building
//! identifier or by localized display name), permutation-invariant sums,
//! and the multiset facts the insertion sorts rely on.

use vstd::prelude::*;
use vstd::string::StringSliceAdditionalSpecFns;

verus! {

/// Lexicographic "less or equal" on byte sequences.
pub open spec fn bytes_le(a: Seq<u8>, b: Seq<u8>) -> bool
    decreases a.len(),
{
    if a.len() == 0 {
        true
    } else if b.len() == 0 {
        false
    } else if a[0] < b[0] {
        true
    } else if b[0] < a[0] {
        false
    } else {
        bytes_le(a.drop_first(), b.drop_first())
    }
}

/// The UTF-8 bytes a string's characters encode to; strings sort by these.
pub open spec fn str_bytes(s: Seq<char>) -> Seq<u8> {
    vstd::utf8::encode_utf8(s)
}

/// The lexicographic order is total.
pub proof fn lemma_bytes_le_total(a: Seq<u8>, b: Seq<u8>)
    ensures
        bytes_le(a, b) || bytes_le(b, a),
    decreases a.len(),
{
    if a.len() == 0 || b.len() == 0 {
    } else if a[0] < b[0] || b[0] < a[0] {
    } else {
        lemma_bytes_le_total(a.drop_first(), b.drop_first());
    }
}

/// The lexicographic order is transitive.
pub proof fn lemma_bytes_le_trans(a: Seq<u8>, b: Seq<u8>, c: Seq<u8>)
    requires
        bytes_le(a, b),
        bytes_le(b, c),
    ensures
        bytes_le(a, c),
    decreases a.len(),
{
    if a.len() == 0 || b.len() == 0 || c.len() == 0 {
    } else if a[0] < b[0] || b[0] < a[0] || b[0] < c[0] || c[0] < b[0] {
    } else {
        lemma_bytes_le_trans(a.drop_first(), b.drop_first(), c.drop_first());
    }
}

/// The lexicographic order is antisymmetric.
pub proof fn lemma_bytes_le_antisym(a: Seq<u8>, b: Seq<u8>)
    requires
        bytes_le(a, b),
        bytes_le(b, a),
    ensures
        a == b,
    decreases a.len(),
{
    if a.len() == 0 {
        assert(b.len() == 0);
        assert(a =~= b);
    } else {
        assert(b.len() > 0);
        lemma_bytes_le_antisym(a.drop_first(), b.drop_first());
        assert(a =~= seq![a[0]] + a.drop_first());
        assert(b =~= seq![b[0]] + b.drop_first());
    }
}

/// Compares two strings in the byte-lexicographic order.
pub fn str_le(a: &String, b: &String) -> (r: bool)
    ensures
        r == bytes_le(str_bytes(a@), str_bytes(b@)),
{
    let av: &[u8] = a.as_str().as_bytes();
    let bv: &[u8] = b.as_str().as_bytes();
    let an: usize = av.len();
    let bn: usize = bv.len();
    let mut i: usize = 0;
    proof {
        assert(av@.skip(0) == av@);
        assert(bv@.skip(0) == bv@);
    }
    loop
        invariant
            i <= an,
            i <= bn,
            an == av@.len(),
            bn == bv@.len(),
            av@ == str_bytes(a@),
            bv@ == str_bytes(b@),
            bytes_le(av@, bv@) == bytes_le(av@.skip(i as int), bv@.skip(i as int)),
        decreases an - i,
    {
        if i >= an {
            proof {
                assert(bytes_le(av@.skip(i as int), bv@.skip(i as int)));
            }
            return true;
        }
        if i >= bn {
            proof {
                assert(!bytes_le(av@.skip(i as int), bv@.skip(i as int)));
            }
            return false;
        }
        let ca: u8 = av[i];
        let cb: u8 = bv[i];
        proof {
            assert(av@.skip(i as int)[0] == av@[i as int]);
            assert(bv@.skip(i as int)[0] == bv@[i as int]);
            assert(av@.skip(i as int).drop_first() == av@.skip(i + 1));
            assert(bv@.skip(i as int).drop_first() == bv@.skip(i + 1));
        }
        if ca < cb {
            return true;
        }
        if cb < ca {
            return false;
        }
        i = i + 1;
    }
}

/// Inserting an element anywhere in a sequence adds exactly that element to
/// its multiset.
pub proof fn lemma_insert_to_multiset<T>(s: Seq<T>, j: int, x: T)
    requires
        0 <= j <= s.len(),
    ensures
        s.insert(j, x).to_multiset() =~= s.to_multiset().insert(x),
{
    broadcast use vstd::seq_lib::group_to_multiset_ensures;

    let t = s.insert(j, x);
    assert(t.remove(j) =~= s);
    assert(t[j] == x);
    assert(t.remove(j).to_multiset() =~= t.to_multiset().remove(x));
    assert(t.to_multiset().contains(x)) by {
        assert(t.contains(x));
    }
    assert forall|y: T| s.to_multiset().insert(x).count(y) == t.to_multiset().count(y) by {
        if y == x {
            assert(t.to_multiset().count(x) == t.to_multiset().remove(x).count(x) + 1);
        } else {
            assert(t.to_multiset().remove(x).count(y) == t.to_multiset().count(y));
        }
    }
}

/// Sequences with equal multisets contain the same elements.
pub proof fn lemma_multiset_eq_contains<T>(a: Seq<T>, b: Seq<T>)
    requires
        a.to_multiset() == b.to_multiset(),
    ensures
        forall|x: T| a.contains(x) == b.contains(x),
{
    broadcast use vstd::seq_lib::group_to_multiset_ensures;

    assert forall|x: T| a.contains(x) == b.contains(x) by {
        if a.contains(x) {
            assert(a.to_multiset().count(x) > 0);
            assert(b.to_multiset().count(x) > 0);
            assert(b.contains(x));
        } else {
            assert(a.to_multiset().count(x) == 0);
            assert(b.to_multiset().count(x) == 0);
            assert(!b.contains(x));
        }
    }
}

/// The sum of a weight over all elements of a sequence.
pub open spec fn seq_sum<T>(s: Seq<T>, w: spec_fn(T) -> int) -> int
    decreases s.len(),
{
    if s.len() == 0 {
        0
    } else {
        seq_sum(s.drop_last(), w) + w(s.last())
    }
}

/// Removing one element removes exactly its weight from the sum.
pub proof fn lemma_seq_sum_remove<T>(s: Seq<T>, i: int, w: spec_fn(T) -> int)
    requires
        0 <= i < s.len(),
    ensures
        seq_sum(s, w) == seq_sum(s.remove(i), w) + w(s[i]),
    decreases s.len(),
{
    if i == s.len() - 1 {
        assert(s.remove(i) =~= s.drop_last());
    } else {
        assert(s.remove(i).drop_last() =~= s.drop_last().remove(i));
        assert(s.remove(i).last() == s.last());
        lemma_seq_sum_remove(s.drop_last(), i, w);
    }
}

/// Pushing an element adds its weight to the sum.
pub proof fn lemma_seq_sum_push<T>(s: Seq<T>, w: spec_fn(T) -> int, e: T)
    ensures
        seq_sum(s.push(e), w) == seq_sum(s, w) + w(e),
{
    assert(s.push(e).drop_last() =~= s);
    assert(s.push(e).last() == e);
}

/// Sums distribute over concatenation.
pub proof fn lemma_seq_sum_concat<T>(a: Seq<T>, b: Seq<T>, w: spec_fn(T) -> int)
    ensures
        seq_sum(a + b, w) == seq_sum(a, w) + seq_sum(b, w),
    decreases b.len(),
{
    if b.len() == 0 {
        assert(a + b =~= a);
    } else {
        assert((a + b).drop_last() =~= a + b.drop_last());
        assert((a + b).last() == b.last());
        lemma_seq_sum_concat(a, b.drop_last(), w);
    }
}

/// A sum of zero weights is zero.
pub proof fn lemma_seq_sum_zero<T>(s: Seq<T>, w: spec_fn(T) -> int)
    requires
        forall|q: int| 0 <= q < s.len() ==> w(s[q]) == 0,
    ensures
        seq_sum(s, w) == 0,
    decreases s.len(),
{
    if s.len() > 0 {
        lemma_seq_sum_zero(s.drop_last(), w);
    }
}

/// Weights that agree on every element give the same sum.
pub proof fn lemma_seq_sum_pointwise<T>(s: Seq<T>, w1: spec_fn(T) -> int, w2: spec_fn(T) -> int)
    requires
        forall|q: int| 0 <= q < s.len() ==> w1(s[q]) == w2(s[q]),
    ensures
        seq_sum(s, w1) == seq_sum(s, w2),
    decreases s.len(),
{
    if s.len() > 0 {
        lemma_seq_sum_pointwise(s.drop_last(), w1, w2);
    }
}

/// A sum is bounded by the sum of an elementwise bound.
pub proof fn lemma_seq_sum_abs<T>(s: Seq<T>, w: spec_fn(T) -> int, wa: spec_fn(T) -> int)
    requires
        forall|q: int| #![trigger s[q]] 0 <= q < s.len() ==> -wa(s[q]) <= w(s[q]) <= wa(s[q]),
    ensures
        -seq_sum(s, wa) <= seq_sum(s, w) <= seq_sum(s, wa),
    decreases s.len(),
{
    if s.len() > 0 {
        lemma_seq_sum_abs(s.drop_last(), w, wa);
    }
}

/// With non-negative weights, a subrange's sum is between zero and the whole
/// sum.
pub proof fn lemma_seq_sum_subrange_le<T>(s: Seq<T>, a: int, c: int, w: spec_fn(T) -> int)
    requires
        0 <= a <= c <= s.len(),
        forall|q: int| 0 <= q < s.len() ==> w(s[q]) >= 0,
    ensures
        0 <= seq_sum(s.subrange(a, c), w) <= seq_sum(s, w),
{
    assert(s =~= s.subrange(0, a) + s.subrange(a, c) + s.subrange(c, s.len() as int));
    lemma_seq_sum_concat(s.subrange(0, a) + s.subrange(a, c), s.subrange(c, s.len() as int), w);
    lemma_seq_sum_concat(s.subrange(0, a), s.subrange(a, c), w);
    lemma_seq_sum_abs(s.subrange(0, a), w, w);
    lemma_seq_sum_abs(s.subrange(a, c), w, w);
    lemma_seq_sum_abs(s.subrange(c, s.len() as int), w, w);
}

/// Sums are invariant under permutation: sequences with equal multisets have
/// equal sums for every weight.
pub proof fn lemma_seq_sum_multiset<T>(a: Seq<T>, b: Seq<T>, w: spec_fn(T) -> int)
    requires
        a.to_multiset() == b.to_multiset(),
    ensures
        seq_sum(a, w) == seq_sum(b, w),
    decreases a.len(),
{
    broadcast use vstd::seq_lib::group_to_multiset_ensures;

    if a.len() == 0 {
        assert(b.to_multiset().len() == 0);
        assert(b.len() == 0);
    } else {
        let x = a.last();
        assert(a.contains(x));
        assert(a.to_multiset().count(x) > 0);
        assert(b.to_multiset().count(x) > 0);
        assert(b.contains(x));
        let i = choose|i: int| 0 <= i < b.len() && b[i] == x;
        lemma_seq_sum_remove(b, i, w);
        assert(a.drop_last() =~= a.remove(a.len() - 1));
        lemma_seq_sum_remove(a, a.len() - 1, w);
        assert(a.remove(a.len() - 1).to_multiset() =~= a.to_multiset().remove(x));
        assert(b.remove(i).to_multiset() =~= b.to_multiset().remove(x));
        lemma_seq_sum_multiset(a.drop_last(), b.remove(i), w);
    }
}

} // verus!
