//! Exchanges of two slots of a sequence, and what they keep.

use vstd::prelude::*;

verus! {

/// The sequence `s` with the values of slots `a` and `b` exchanged.
pub open spec fn exchange<T>(s: Seq<T>, a: int, b: int) -> Seq<T> {
    s.update(a, s[b]).update(b, s[a])
}

/// Exchanging the same two slots twice restores the sequence.
pub proof fn lemma_exchange_twice<T>(s: Seq<T>, a: int, b: int)
    requires
        0 <= a < s.len(),
        0 <= b < s.len(),
    ensures
        exchange(exchange(s, a, b), a, b) == s,
{
}

/// An exchange keeps the length, keeps every value as often as it was there,
/// and leaves every slot but the two alone.
pub proof fn lemma_exchange_keeps<T>(s: Seq<T>, a: int, b: int)
    requires
        0 <= a < s.len(),
        0 <= b < s.len(),
    ensures
        exchange(s, a, b).len() == s.len(),
        exchange(s, a, b).to_multiset() == s.to_multiset(),
        forall|i: int| 0 <= i < s.len() && i != a && i != b ==> exchange(s, a, b)[i] == s[i],
        exchange(s, a, b)[a] == s[b],
        exchange(s, a, b)[b] == s[a],
{
    broadcast use vstd::multiset::group_multiset_axioms;

    let half = s.update(a, s[b]);
    vstd::seq_lib::to_multiset_update(s, a, s[b]);
    vstd::seq_lib::to_multiset_update(half, b, s[a]);
    s.to_multiset_ensures();
}

} // verus!
