//! Sequences that hold the same items in another order.

use vstd::prelude::*;
use vstd::seq_lib::{to_multiset_build, to_multiset_contains, to_multiset_insert, to_multiset_len};

verus! {

/// Two sequences that hold the same items, each as often as the other, are
/// of one length.
pub proof fn lemma_same_items_same_len<A>(a: Seq<A>, b: Seq<A>)
    requires
        a.to_multiset() == b.to_multiset(),
    ensures
        a.len() == b.len(),
{
    to_multiset_len(a);
    to_multiset_len(b);
}

/// Of two sequences that hold the same items, what one contains the other
/// contains.
pub proof fn lemma_same_items_contain<A>(a: Seq<A>, b: Seq<A>, item: A)
    requires
        a.to_multiset() == b.to_multiset(),
        a.contains(item),
    ensures
        b.contains(item),
{
    to_multiset_contains(a, item);
    to_multiset_contains(b, item);
}

/// Where a sequence holds the first `count` items of another, putting the next
/// item of that other one anywhere into it makes it hold the first
/// `count + 1`.
pub proof fn lemma_same_items_grow<A>(a: Seq<A>, b: Seq<A>, count: int, at: int)
    requires
        0 <= count < b.len(),
        0 <= at <= a.len(),
        a.to_multiset() == b.take(count).to_multiset(),
    ensures
        a.insert(at, b[count]).to_multiset() == b.take(count + 1).to_multiset(),
{
    to_multiset_insert(a, at, b[count]);
    to_multiset_build(b.take(count), b[count]);
    assert(b.take(count + 1) =~= b.take(count).push(b[count]));
}

} // verus!
