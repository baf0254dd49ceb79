//! Sequences in ascending order, and the place of a new value in one.

use vstd::prelude::*;
use crate::order::{le, transitive};

verus! {

/// No element of `s` is followed, at any distance, by one that it is not
/// `<=` to.
pub open spec fn sorted<T: PartialOrd>(s: Seq<T>) -> bool {
    forall|i: int, j: int| 0 <= i < j < s.len() ==> le(#[trigger] s[i], #[trigger] s[j])
}

/// Each element of `s` is `<=` the one that follows it.
pub open spec fn stepwise_sorted<T: PartialOrd>(s: Seq<T>) -> bool {
    forall|i: int| 0 <= i && i + 1 < s.len() ==> le(#[trigger] s[i], s[i + 1])
}

/// Index `k` is a gap of `s` that `v` fits in by its neighbours: `v` is not
/// `<=` the element before the gap, and is `<=` the element after it.
pub open spec fn fits_at<T: PartialOrd>(s: Seq<T>, v: T, k: int) -> bool {
    &&& 0 <= k <= s.len()
    &&& k > 0 ==> !le(v, s[k - 1])
    &&& k < s.len() ==> le(v, s[k])
}

/// The index of the first element of `s` that `v` is `<=` to, or the length
/// of `s` where there is none.
pub open spec fn lower_bound<T: PartialOrd>(s: Seq<T>, v: T) -> int
    decreases s.len(),
{
    if s.len() == 0 || le(v, s.first()) {
        0
    } else {
        1 + lower_bound(s.drop_first(), v)
    }
}

/// The lower bound is an index of `s` or its length, and `v` is `<=` to no
/// element before it.
pub proof fn lemma_lower_bound_skips<T: PartialOrd>(s: Seq<T>, v: T)
    ensures
        0 <= lower_bound(s, v) <= s.len(),
        forall|i: int| 0 <= i < lower_bound(s, v) ==> !le(v, #[trigger] s[i]),
        lower_bound(s, v) < s.len() ==> le(v, s[lower_bound(s, v)]),
    decreases s.len(),
{
    if s.len() == 0 || le(v, s.first()) {
    } else {
        let tail = s.drop_first();
        lemma_lower_bound_skips(tail, v);
        assert forall|i: int| 0 <= i < lower_bound(s, v) implies !le(v, #[trigger] s[i]) by {
            if i > 0 {
                assert(s[i] == tail[i - 1]);
            }
        }
        assert(lower_bound(s, v) < s.len() ==> s[lower_bound(s, v)] == tail[lower_bound(tail, v)]);
    }
}

/// In a sorted sequence the lower bound parts the elements that `v` is not
/// `<=` to from those that it is `<=` to: a value equal to `v` comes after
/// it.
pub proof fn lemma_lower_bound_splits<T: PartialOrd>(s: Seq<T>, v: T)
    requires
        sorted(s),
        transitive::<T>(),
    ensures
        0 <= lower_bound(s, v) <= s.len(),
        forall|i: int| 0 <= i < lower_bound(s, v) ==> !le(v, #[trigger] s[i]),
        forall|i: int| lower_bound(s, v) <= i < s.len() ==> le(v, #[trigger] s[i]),
{
    lemma_lower_bound_skips(s, v);
    let k = lower_bound(s, v);
    assert forall|i: int| k <= i < s.len() implies le(v, #[trigger] s[i]) by {
        if k < i {
            assert(le(v, s[k]) && le(s[k], s[i]));
        }
    }
}

/// In a sorted sequence the only gap that `v` fits in by its neighbours is
/// its lower bound.
pub proof fn lemma_fit_is_lower_bound<T: PartialOrd>(s: Seq<T>, v: T, k: int)
    requires
        sorted(s),
        transitive::<T>(),
        fits_at(s, v, k),
    ensures
        k == lower_bound(s, v),
{
    lemma_lower_bound_splits(s, v);
}

} // verus!
