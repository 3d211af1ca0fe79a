//! The first position of a sequence at which a property holds.
use vstd::prelude::*;

verus! {

/// The least index below `len` at which `p` holds, if any.
pub open spec fn first_where(len: int, p: spec_fn(int) -> bool) -> Option<int> {
    if exists|i: int| 0 <= i < len && #[trigger] p(i) {
        Some(choose|i: int| 0 <= i < len && #[trigger] p(i) && forall|j: int| 0 <= j < i ==> !#[trigger] p(j))
    } else {
        None
    }
}

/// An index where `p` holds, with `p` failing everywhere before, is the first one.
pub proof fn lemma_first_where_at(len: int, p: spec_fn(int) -> bool, i: int)
    requires
        0 <= i < len,
        p(i),
        forall|j: int| 0 <= j < i ==> !#[trigger] p(j),
    ensures
        first_where(len, p) == Some(i),
{
    assert(0 <= i < len && p(i) && forall|j: int| 0 <= j < i ==> !#[trigger] p(j));
    let k = choose|k: int| 0 <= k < len && #[trigger] p(k) && forall|j: int| 0 <= j < k ==> !#[trigger] p(j);
    if k < i {
        assert(!p(k));
    } else if k > i {
        assert(!p(i));
    }
}

/// Without any index where `p` holds there is no first one.
pub proof fn lemma_first_where_none(len: int, p: spec_fn(int) -> bool)
    requires
        forall|j: int| 0 <= j < len ==> !#[trigger] p(j),
    ensures
        first_where(len, p) == None::<int>,
{
}

/// A first index exists whenever some index satisfies `p`.
pub proof fn lemma_first_where_some(len: int, p: spec_fn(int) -> bool, i: int)
    requires
        0 <= i < len,
        p(i),
    ensures
        first_where(len, p) is Some,
        0 <= first_where(len, p)->0 <= i,
        p(first_where(len, p)->0),
        forall|j: int| 0 <= j < first_where(len, p)->0 ==> !#[trigger] p(j),
    decreases i,
{
    if exists|j: int| 0 <= j < i && #[trigger] p(j) {
        let j = choose|j: int| 0 <= j < i && #[trigger] p(j);
        lemma_first_where_some(len, p, j);
    } else {
        lemma_first_where_at(len, p, i);
    }
}


/// The first index, when there is one, lies below `len` and satisfies `p`.
pub proof fn lemma_first_where_found(len: int, p: spec_fn(int) -> bool)
    ensures
        first_where(len, p) matches Some(i) ==> 0 <= i < len && p(i),
{
    if exists|i: int| 0 <= i < len && #[trigger] p(i) {
        let i = choose|i: int| 0 <= i < len && #[trigger] p(i);
        lemma_first_where_some(len, p, i);
    }
}

} // verus!
