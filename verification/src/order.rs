//! The lexicographic order of sequences of integers.

use std::cmp::Ordering;
use vstd::prelude::*;

verus! {

/// `a` and `b` agree on their first `k` places, and there `a` is over while
/// `b` goes on, or `a` has the smaller number.
pub open spec fn lex_decides_at(a: Seq<int>, b: Seq<int>, k: int) -> bool {
    &&& 0 <= k <= a.len()
    &&& k < b.len()
    &&& forall|j: int| 0 <= j < k ==> a[j] == b[j]
    &&& k < a.len() ==> a[k] < b[k]
}

/// `a` orders strictly before `b`: at the first place where they differ `a`
/// has the smaller number, or `a` is a strict prefix of `b`.
pub open spec fn lex_precedes(a: Seq<int>, b: Seq<int>) -> bool {
    exists|k: int| lex_decides_at(a, b, k)
}

/// The three-way comparison of two sequences.
pub open spec fn lex_order(a: Seq<int>, b: Seq<int>) -> Ordering {
    if a == b {
        Ordering::Equal
    } else if lex_precedes(a, b) {
        Ordering::Less
    } else {
        Ordering::Greater
    }
}

/// The three-way comparison of two numbers.
pub open spec fn number_order(m: nat, n: nat) -> Ordering {
    if m < n {
        Ordering::Less
    } else if m == n {
        Ordering::Equal
    } else {
        Ordering::Greater
    }
}

/// A strict prefix orders before the longer sequence.
pub proof fn lemma_lex_prefix(a: Seq<int>, b: Seq<int>)
    requires
        a.len() < b.len(),
        forall|j: int| 0 <= j < a.len() ==> a[j] == b[j],
    ensures
        lex_precedes(a, b),
{
    assert(lex_decides_at(a, b, a.len() as int));
}

/// No sequence orders before itself.
pub proof fn lemma_lex_irreflexive(a: Seq<int>)
    ensures
        !lex_precedes(a, a),
{
}

/// Of two sequences at most one orders before the other.
pub proof fn lemma_lex_asymmetric(a: Seq<int>, b: Seq<int>)
    ensures
        !(lex_precedes(a, b) && lex_precedes(b, a)),
{
    if lex_precedes(a, b) && lex_precedes(b, a) {
        let k1 = choose|k: int| lex_decides_at(a, b, k);
        let k2 = choose|k: int| lex_decides_at(b, a, k);
        if k1 < k2 {
            assert(b[k1] == a[k1]);
        } else if k2 < k1 {
            assert(a[k2] == b[k2]);
        }
    }
}

/// If `a` orders before `b` and `b` before `c`, then `a` orders before `c`.
pub proof fn lemma_lex_transitive(a: Seq<int>, b: Seq<int>, c: Seq<int>)
    requires
        lex_precedes(a, b),
        lex_precedes(b, c),
    ensures
        lex_precedes(a, c),
{
    let k1 = choose|k: int| lex_decides_at(a, b, k);
    let k2 = choose|k: int| lex_decides_at(b, c, k);
    let k = if k1 <= k2 {
        k1
    } else {
        k2
    };
    assert forall|j: int| 0 <= j < k implies a[j] == c[j] by {
        assert(a[j] == b[j]);
        assert(b[j] == c[j]);
    }
    if k1 < k2 {
        assert(b[k1] == c[k1]);
    } else if k2 < k1 {
        assert(a[k2] == b[k2]);
    }
    assert(lex_decides_at(a, c, k));
}

/// Two different sequences are ordered one way or the other.
pub proof fn lemma_lex_total(a: Seq<int>, b: Seq<int>)
    ensures
        a == b || lex_precedes(a, b) || lex_precedes(b, a),
{
    let k = first_difference(a, b);
    lemma_first_difference(a, b);
    if k == a.len() && k == b.len() {
        assert(a =~= b);
    } else if k == a.len() {
        assert(lex_decides_at(a, b, k));
    } else if k == b.len() {
        assert(lex_decides_at(b, a, k));
    } else if a[k] < b[k] {
        assert(lex_decides_at(a, b, k));
    } else {
        assert(lex_decides_at(b, a, k));
    }
}

/// The lexicographic order is a strict total order that agrees with
/// equality. It is total: of `a` before `b`, `a` equal to `b` and `b` before
/// `a`, one holds. It is antisymmetric: no two of them hold, and `a` is
/// before `b` exactly when `b` is after `a`. It is transitive, also where
/// one of the two steps is an equality.
pub proof fn lemma_lex_order_strict_total(a: Seq<int>, b: Seq<int>, c: Seq<int>)
    ensures
        lex_order(a, b) == Ordering::Less || a == b || lex_order(b, a) == Ordering::Less,
        lex_order(a, b) == Ordering::Equal <==> a == b,
        lex_order(a, b) == Ordering::Less <==> lex_precedes(a, b),
        !(lex_order(a, b) == Ordering::Less && lex_order(b, a) == Ordering::Less),
        lex_order(a, b) == Ordering::Less <==> lex_order(b, a) == Ordering::Greater,
        lex_order(a, b) == Ordering::Less && lex_order(b, c) == Ordering::Less ==> lex_order(a, c)
            == Ordering::Less,
        lex_order(a, b) != Ordering::Greater && lex_order(b, c) != Ordering::Greater ==> lex_order(
            a,
            c,
        ) != Ordering::Greater,
{
    lemma_lex_irreflexive(a);
    lemma_lex_irreflexive(b);
    lemma_lex_asymmetric(a, b);
    lemma_lex_asymmetric(a, c);
    lemma_lex_total(a, b);
    lemma_lex_total(a, c);
    if lex_precedes(a, b) && lex_precedes(b, c) {
        lemma_lex_transitive(a, b, c);
    }
}

/// The number of leading places on which `a` and `b` agree.
spec fn first_difference(a: Seq<int>, b: Seq<int>) -> int
    decreases a.len(),
{
    if a.len() == 0 || b.len() == 0 || a[0] != b[0] {
        0
    } else {
        1 + first_difference(a.drop_first(), b.drop_first())
    }
}

proof fn lemma_first_difference(a: Seq<int>, b: Seq<int>)
    ensures
        0 <= first_difference(a, b) <= a.len(),
        first_difference(a, b) <= b.len(),
        forall|j: int| 0 <= j < first_difference(a, b) ==> a[j] == b[j],
        first_difference(a, b) < a.len() && first_difference(a, b) < b.len() ==> a[first_difference(
            a,
            b,
        )] != b[first_difference(a, b)],
    decreases a.len(),
{
    if a.len() == 0 || b.len() == 0 || a[0] != b[0] {
    } else {
        let ta = a.drop_first();
        let tb = b.drop_first();
        lemma_first_difference(ta, tb);
        let k = first_difference(ta, tb);
        assert forall|j: int| 0 <= j < k + 1 implies a[j] == b[j] by {
            if j > 0 {
                assert(ta[j - 1] == tb[j - 1]);
            }
        }
        if k < ta.len() && k < tb.len() {
            assert(ta[k] == a[k + 1]);
            assert(tb[k] == b[k + 1]);
        }
    }
}

} // verus!
