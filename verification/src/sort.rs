//! Stable sorting and bucketing of items by a key.

use vstd::prelude::*;

use crate::order::{precedes, same_rank, Ranked};

verus! {

/// The test for items whose key has the same rank as `key`.
pub open spec fn ranked_with<K: Ranked, T>(key: K) -> spec_fn((K, T)) -> bool {
    |item: (K, T)| same_rank(item.0, key)
}

/// The items whose key has the same rank as `key`, in their order.
pub open spec fn with_rank<K: Ranked, T>(items: Seq<(K, T)>, key: K) -> Seq<(K, T)> {
    items.filter(ranked_with(key))
}

/// The items without their keys.
pub open spec fn values<K, T>(items: Seq<(K, T)>) -> Seq<T> {
    items.map_values(|item: (K, T)| item.1)
}

/// Whether no item comes before one that its key should follow.
pub open spec fn is_sorted<K: Ranked, T>(items: Seq<(K, T)>) -> bool {
    forall|i: int, j: int|
        0 <= i < j < items.len() ==> (#[trigger] items[i]).0.at_most((#[trigger] items[j]).0)
}

/// Whether `output` is `input` in the order of the keys, items of the same
/// rank in the order in which they came.
pub open spec fn is_stable_sort<K: Ranked, T>(input: Seq<(K, T)>, output: Seq<(K, T)>) -> bool {
    &&& is_sorted(output)
    &&& output.to_multiset() == input.to_multiset()
    &&& forall|key: K| #[trigger] with_rank(output, key) == with_rank(input, key)
}

/// Whether `buckets` holds the items by key: one bucket for each rank that
/// occurs, in the order of the keys, and in it the items of that rank in the
/// order in which they came.
pub open spec fn is_bucketing<K: Ranked, T>(
    items: Seq<(K, T)>,
    buckets: Seq<(K, Vec<T>)>,
) -> bool {
    &&& forall|i: int, j: int|
        0 <= i < j < buckets.len() ==> precedes(
            (#[trigger] buckets[i]).0,
            (#[trigger] buckets[j]).0,
        )
    &&& forall|j: int|
        0 <= j < buckets.len() ==> {
            &&& (#[trigger] buckets[j]).1@ == values(with_rank(items, buckets[j].0))
            &&& buckets[j].1@.len() > 0
        }
    &&& forall|i: int|
        0 <= i < items.len() ==> has_bucket((#[trigger] items[i]).0, buckets)
}

/// Whether some bucket has a key of the same rank as `key`.
pub open spec fn has_bucket<K: Ranked, T>(key: K, buckets: Seq<(K, Vec<T>)>) -> bool {
    exists|j: int| 0 <= j < buckets.len() && same_rank(key, (#[trigger] buckets[j]).0)
}

proof fn lemma_with_rank_add<K: Ranked, T>(a: Seq<(K, T)>, b: Seq<(K, T)>, key: K)
    ensures
        with_rank(a + b, key) == with_rank(a, key) + with_rank(b, key),
{
    Seq::filter_distributes_over_add(a, b, ranked_with(key));
}

proof fn lemma_with_rank_one<K: Ranked, T>(item: (K, T), key: K)
    ensures
        with_rank(seq![item], key) == if same_rank(item.0, key) {
            seq![item]
        } else {
            Seq::<(K, T)>::empty()
        },
{
    reveal(Seq::filter);
    let one = seq![item];
    assert(one.drop_last() == Seq::<(K, T)>::empty());
    assert(one.drop_last().filter(ranked_with(key)) == Seq::<(K, T)>::empty());
    assert(one.last() == item);
    assert(Seq::<(K, T)>::empty().push(item) == one);
}

/// The items of a rank are those of the sequence without its last item, and
/// the last item if it is of that rank.
pub proof fn lemma_with_rank_push<K: Ranked, T>(items: Seq<(K, T)>, item: (K, T), key: K)
    ensures
        with_rank(items.push(item), key) == if same_rank(item.0, key) {
            with_rank(items, key).push(item)
        } else {
            with_rank(items, key)
        },
{
    reveal(Seq::filter);
    assert(items.push(item).drop_last() == items);
}

/// No item is of a rank that no key has.
proof fn lemma_with_rank_none<K: Ranked, T>(items: Seq<(K, T)>, key: K)
    requires
        forall|i: int| 0 <= i < items.len() ==> !same_rank((#[trigger] items[i]).0, key),
    ensures
        with_rank(items, key) == Seq::<(K, T)>::empty(),
    decreases items.len(),
{
    reveal(Seq::filter);
    if items.len() > 0 {
        lemma_with_rank_none(items.drop_last(), key);
        assert(!same_rank(items[items.len() - 1].0, key));
    }
}

/// The items of one rank are those of any other key of that rank.
pub proof fn lemma_with_rank_same<K: Ranked, T>(items: Seq<(K, T)>, a: K, b: K)
    requires
        same_rank(a, b),
    ensures
        with_rank(items, a) == with_rank(items, b),
    decreases items.len(),
{
    reveal(Seq::filter);
    if items.len() > 0 {
        lemma_with_rank_same(items.drop_last(), a, b);
        let k = items.last().0;
        if same_rank(k, a) {
            K::lemma_transitive(k, a, b);
            K::lemma_transitive(b, a, k);
        }
        if same_rank(k, b) {
            K::lemma_transitive(k, b, a);
            K::lemma_transitive(a, b, k);
        }
    }
}

/// Every item is among those of its own rank.
pub proof fn lemma_in_own_rank<K: Ranked, T>(items: Seq<(K, T)>, i: int)
    requires
        0 <= i < items.len(),
    ensures
        with_rank(items, items[i].0).contains(items[i]),
        with_rank(items, items[i].0).len() > 0,
{
    K::lemma_total(items[i].0, items[i].0);
    assert(ranked_with::<K, T>(items[i].0)(items[i]));
    items.lemma_filter_contains(ranked_with(items[i].0), i);
}

/// What is among the items of a rank is an item of that rank.
pub proof fn lemma_rank_members<K: Ranked, T>(items: Seq<(K, T)>, key: K, j: int)
    requires
        0 <= j < with_rank(items, key).len(),
    ensures
        items.contains(with_rank(items, key)[j]),
        same_rank(with_rank(items, key)[j].0, key),
    decreases items.len(),
{
    reveal(Seq::filter);
    if items.len() > 0 {
        let rest = items.drop_last();
        if j < with_rank(rest, key).len() {
            lemma_rank_members(rest, key, j);
            let i = choose|i: int| 0 <= i < rest.len() && rest[i] == with_rank(rest, key)[j];
            assert(items[i] == with_rank(items, key)[j]);
        } else {
            assert(items[items.len() - 1] == with_rank(items, key)[j]);
        }
    }
}

/// How far a merge has come: what is left of both sides, and the sorted tail
/// that was taken off their ends.
spec fn merging<K: Ranked, T>(
    left0: Seq<(K, T)>,
    right0: Seq<(K, T)>,
    left: Seq<(K, T)>,
    right: Seq<(K, T)>,
    tail: Seq<(K, T)>,
) -> bool {
    &&& is_sorted(left)
    &&& is_sorted(right)
    &&& is_sorted(tail)
    &&& forall|i: int, j: int|
        0 <= i < left.len() && 0 <= j < tail.len() ==> (#[trigger] left[i]).0.at_most(
            (#[trigger] tail[j]).0,
        )
    &&& forall|i: int, j: int|
        0 <= i < right.len() && 0 <= j < tail.len() ==> (#[trigger] right[i]).0.at_most(
            (#[trigger] tail[j]).0,
        )
    &&& (left + right + tail).to_multiset() == (left0 + right0).to_multiset()
    &&& forall|key: K| #[trigger]
        with_rank(left0 + right0, key) == with_rank(left, key) + with_rank(right, key) + with_rank(
            tail,
            key,
        )
}

/// Taking the last item of the right side, when the left side holds none that
/// comes after it.
proof fn lemma_take_right<K: Ranked, T>(
    left0: Seq<(K, T)>,
    right0: Seq<(K, T)>,
    left: Seq<(K, T)>,
    right: Seq<(K, T)>,
    tail: Seq<(K, T)>,
)
    requires
        merging(left0, right0, left, right, tail),
        right.len() > 0,
        left.len() > 0 ==> left.last().0.at_most(right.last().0),
    ensures
        merging(left0, right0, left, right.drop_last(), seq![right.last()] + tail),
{
    let item = right.last();
    let rest = right.drop_last();
    let longer = seq![item] + tail;
    assert forall|i: int| 0 <= i < left.len() implies (#[trigger] left[i]).0.at_most(item.0) by {
        if i < left.len() - 1 {
            K::lemma_transitive(left[i].0, left.last().0, item.0);
        }
    }
    assert forall|i: int, j: int|
        0 <= i < rest.len() && 0 <= j < longer.len() implies (#[trigger] rest[i]).0.at_most(
        (#[trigger] longer[j]).0,
    ) by {
        assert(right[i].0.at_most(right[right.len() - 1].0));
        if j > 0 {
            assert(right[i].0.at_most(tail[j - 1].0));
        }
    }
    assert forall|i: int, j: int|
        0 <= i < left.len() && 0 <= j < longer.len() implies (#[trigger] left[i]).0.at_most(
        (#[trigger] longer[j]).0,
    ) by {
        if j > 0 {
            assert(left[i].0.at_most(tail[j - 1].0));
        }
    }
    assert forall|i: int, j: int|
        0 <= i < j < longer.len() implies (#[trigger] longer[i]).0.at_most(
        (#[trigger] longer[j]).0,
    ) by {
        if i > 0 {
            assert(tail[i - 1].0.at_most(tail[j - 1].0));
        } else {
            assert(right[right.len() - 1].0.at_most(tail[j - 1].0));
        }
    }
    assert(left + rest + longer == left + right + tail);
    assert forall|key: K| #[trigger]
        with_rank(left0 + right0, key) == with_rank(left, key) + with_rank(rest, key) + with_rank(
            longer,
            key,
        ) by {
        assert(right == rest.push(item));
        lemma_with_rank_push(rest, item, key);
        lemma_with_rank_add(seq![item], tail, key);
        lemma_with_rank_one(item, key);
        assert(with_rank(left, key) + with_rank(right, key) + with_rank(tail, key) == with_rank(
            left,
            key,
        ) + with_rank(rest, key) + with_rank(longer, key));
    }
}

/// Taking the last item of the left side, when it comes after all that the
/// right side holds.
proof fn lemma_take_left<K: Ranked, T>(
    left0: Seq<(K, T)>,
    right0: Seq<(K, T)>,
    left: Seq<(K, T)>,
    right: Seq<(K, T)>,
    tail: Seq<(K, T)>,
)
    requires
        merging(left0, right0, left, right, tail),
        left.len() > 0,
        right.len() > 0 ==> !left.last().0.at_most(right.last().0),
    ensures
        merging(left0, right0, left.drop_last(), right, seq![left.last()] + tail),
{
    let item = left.last();
    let rest = left.drop_last();
    let longer = seq![item] + tail;
    assert forall|i: int| 0 <= i < right.len() implies precedes(
        (#[trigger] right[i]).0,
        item.0,
    ) by {
        K::lemma_total(item.0, right.last().0);
        if i < right.len() - 1 {
            assert(right[i].0.at_most(right[right.len() - 1].0));
            K::lemma_transitive(right[i].0, right.last().0, item.0);
            if item.0.at_most(right[i].0) {
                K::lemma_transitive(item.0, right[i].0, right.last().0);
            }
        }
    }
    assert forall|i: int, j: int|
        0 <= i < rest.len() && 0 <= j < longer.len() implies (#[trigger] rest[i]).0.at_most(
        (#[trigger] longer[j]).0,
    ) by {
        assert(left[i].0.at_most(left[left.len() - 1].0));
        if j > 0 {
            assert(left[i].0.at_most(tail[j - 1].0));
        }
    }
    assert forall|i: int, j: int|
        0 <= i < right.len() && 0 <= j < longer.len() implies (#[trigger] right[i]).0.at_most(
        (#[trigger] longer[j]).0,
    ) by {
        if j > 0 {
            assert(right[i].0.at_most(tail[j - 1].0));
        }
    }
    assert forall|i: int, j: int|
        0 <= i < j < longer.len() implies (#[trigger] longer[i]).0.at_most(
        (#[trigger] longer[j]).0,
    ) by {
        if i > 0 {
            assert(tail[i - 1].0.at_most(tail[j - 1].0));
        } else {
            assert(left[left.len() - 1].0.at_most(tail[j - 1].0));
        }
    }
    assert((rest + right + longer).to_multiset() == (left + right + tail).to_multiset()) by {
        broadcast use vstd::seq_lib::lemma_seq_union_to_multiset_commutative;
        broadcast use vstd::seq_lib::lemma_multiset_commutative;

        assert(rest + seq![item] == left);
        assert(rest + right + longer == rest + (right + seq![item]) + tail);
        assert(left + right + tail == rest + (seq![item] + right) + tail);
    }
    assert forall|key: K| #[trigger]
        with_rank(left0 + right0, key) == with_rank(rest, key) + with_rank(right, key) + with_rank(
            longer,
            key,
        ) by {
        assert(left == rest.push(item));
        lemma_with_rank_push(rest, item, key);
        lemma_with_rank_add(seq![item], tail, key);
        lemma_with_rank_one(item, key);
        if same_rank(item.0, key) {
            assert forall|i: int| 0 <= i < right.len() implies !same_rank(
                (#[trigger] right[i]).0,
                key,
            ) by {
                assert(precedes(right[i].0, item.0));
                if same_rank(right[i].0, key) {
                    K::lemma_transitive(item.0, key, right[i].0);
                }
            }
            lemma_with_rank_none(right, key);
        }
        assert(with_rank(left, key) + with_rank(right, key) + with_rank(tail, key) == with_rank(
            rest,
            key,
        ) + with_rank(right, key) + with_rank(longer, key));
    }
}

/// Turn a list round.
fn reversed<A>(list: Vec<A>) -> (turned: Vec<A>)
    ensures
        turned@ == list@.reverse(),
{
    let mut left = list;
    let ghost all = list@;
    let mut turned: Vec<A> = Vec::new();
    while left.len() > 0
        invariant
            left@ + turned@.reverse() == all,
        decreases left.len(),
    {
        let ghost before = left@;
        let ghost turned0 = turned@;
        match left.pop() {
            Some(item) => {
                turned.push(item);
                assert(turned@.reverse() == seq![item] + turned0.reverse());
                assert(before == left@ + seq![item]);
            },
            None => {},
        }
    }
    assert(turned@ == turned@.reverse().reverse());
    turned
}

/// Merge two sorted lists into one; of items of the same rank, those of the
/// left list come first.
fn merge<K: Ranked, T>(left: Vec<(K, T)>, right: Vec<(K, T)>) -> (merged: Vec<(K, T)>)
    requires
        is_sorted(left@),
        is_sorted(right@),
    ensures
        is_stable_sort(left@ + right@, merged@),
{
    let ghost left0 = left@;
    let ghost right0 = right@;
    let mut left = left;
    let mut right = right;
    let mut taken: Vec<(K, T)> = Vec::new();
    let ghost mut tail = Seq::<(K, T)>::empty();
    proof {
        assert(left0 + right0 + tail == left0 + right0);
        assert forall|key: K| #[trigger]
            with_rank(left0 + right0, key) == with_rank(left0, key) + with_rank(right0, key)
                + with_rank(tail, key) by {
            lemma_with_rank_add(left0, right0, key);
            lemma_with_rank_none(tail, key);
            assert(with_rank(left0, key) + with_rank(right0, key) + with_rank(tail, key)
                == with_rank(left0, key) + with_rank(right0, key));
        }
    }
    while left.len() > 0 || right.len() > 0
        invariant
            merging(left0, right0, left@, right@, tail),
            taken@.reverse() == tail,
        decreases left.len() + right.len(),
    {
        let from_right = if left.len() == 0 {
            true
        } else if right.len() == 0 {
            false
        } else {
            left[left.len() - 1].0.is_at_most(&right[right.len() - 1].0)
        };
        let ghost taken0 = taken@;
        proof {
            if from_right {
                lemma_take_right(left0, right0, left@, right@, tail);
            } else {
                lemma_take_left(left0, right0, left@, right@, tail);
            }
        }
        let next = if from_right {
            right.pop()
        } else {
            left.pop()
        };
        match next {
            Some(item) => {
                taken.push(item);
                proof {
                    tail = seq![item] + tail;
                    assert(taken@.reverse() == seq![item] + taken0.reverse());
                }
            },
            None => {},
        }
    }
    proof {
        assert(left@ + right@ + tail == tail);
        assert forall|key: K| #[trigger] with_rank(tail, key) == with_rank(left0 + right0, key) by {
            lemma_with_rank_none(left@, key);
            lemma_with_rank_none(right@, key);
            assert(with_rank(left@, key) + with_rank(right@, key) + with_rank(tail, key)
                == with_rank(tail, key));
        }
    }
    reversed(taken)
}

/// Sort by key, keeping the order of items of the same rank.
pub fn sort_by_key<K: Ranked, T>(items: Vec<(K, T)>) -> (sorted: Vec<(K, T)>)
    ensures
        is_stable_sort(items@, sorted@),
    decreases items.len(),
{
    if items.len() < 2 {
        return items;
    }
    let ghost all = items@;
    let mut front = items;
    let half = front.len() / 2;
    let back = front.split_off(half);
    let ghost front0 = front@;
    let ghost back0 = back@;
    assert(all == front0 + back0);
    let front = sort_by_key(front);
    let back = sort_by_key(back);
    proof {
        assert((front@ + back@).to_multiset() == all.to_multiset()) by {
            broadcast use vstd::seq_lib::lemma_multiset_commutative;

        }
        assert forall|key: K| #[trigger] with_rank(front@ + back@, key) == with_rank(all, key) by {
            lemma_with_rank_add(front@, back@, key);
            lemma_with_rank_add(front0, back0, key);
        }
    }
    let sorted = merge(front, back);
    proof {
        assert forall|key: K| #[trigger] with_rank(sorted@, key) == with_rank(all, key) by {
            assert(with_rank(sorted@, key) == with_rank(front@ + back@, key));
        }
    }
    sorted
}

/// An item that belongs to the last bucket joins it.
proof fn lemma_join_bucket<K: Ranked, T>(
    items: Seq<(K, T)>,
    item: (K, T),
    before: Seq<(K, Vec<T>)>,
    after: Seq<(K, Vec<T>)>,
)
    requires
        is_bucketing(items, before),
        before.len() > 0,
        after.len() == before.len(),
        after.drop_last() == before.drop_last(),
        after.last().0 == before.last().0,
        after.last().1@ == before.last().1@.push(item.1),
        same_rank(item.0, before.last().0),
    ensures
        is_bucketing(items.push(item), after),
{
    let longer = items.push(item);
    assert forall|j: int| 0 <= j < after.len() implies (#[trigger] after[j]).0 == before[j].0 by {
        if j < after.len() - 1 {
            assert(after[j] == after.drop_last()[j]);
            assert(before[j] == before.drop_last()[j]);
        }
    }
    assert forall|i: int, j: int| 0 <= i < j < after.len() implies precedes(
        (#[trigger] after[i]).0,
        (#[trigger] after[j]).0,
    ) by {
        assert(precedes(before[i].0, before[j].0));
    }
    assert forall|j: int| 0 <= j < after.len() implies {
        &&& (#[trigger] after[j]).1@ == values(with_rank(longer, after[j].0))
        &&& after[j].1@.len() > 0
    } by {
        assert(before[j].1@ == values(with_rank(items, before[j].0)));
        lemma_with_rank_push(items, item, after[j].0);
        if j < after.len() - 1 {
            assert(after[j] == after.drop_last()[j]);
            assert(before[j] == before.drop_last()[j]);
            assert(precedes(before[j].0, before[before.len() - 1].0));
            if same_rank(item.0, before[j].0) {
                K::lemma_transitive(before.last().0, item.0, before[j].0);
            }
        } else {
            assert(values(with_rank(items, after[j].0).push(item)) == values(
                with_rank(items, after[j].0),
            ).push(item.1));
        }
    }
    assert forall|i: int| 0 <= i < longer.len() implies has_bucket(
        (#[trigger] longer[i]).0,
        after,
    ) by {
        if i < items.len() {
            assert(has_bucket(items[i].0, before));
            let j = choose|j: int|
                0 <= j < before.len() && same_rank(items[i].0, (#[trigger] before[j]).0);
            assert(same_rank(longer[i].0, after[j].0));
        } else {
            assert(same_rank(longer[i].0, after[after.len() - 1].0));
        }
    }
}

/// An item that comes after all buckets opens a new one.
proof fn lemma_open_bucket<K: Ranked, T>(
    items: Seq<(K, T)>,
    item: (K, T),
    before: Seq<(K, Vec<T>)>,
    bucket: (K, Vec<T>),
)
    requires
        is_bucketing(items, before),
        before.len() > 0 ==> !item.0.at_most(before.last().0),
        bucket.0 == item.0,
        bucket.1@ == seq![item.1],
    ensures
        is_bucketing(items.push(item), before.push(bucket)),
{
    let longer = items.push(item);
    let after = before.push(bucket);
    assert forall|j: int| 0 <= j < before.len() implies precedes(
        (#[trigger] before[j]).0,
        item.0,
    ) by {
        let last = before[before.len() - 1].0;
        K::lemma_total(item.0, last);
        if j < before.len() - 1 {
            assert(precedes(before[j].0, last));
            K::lemma_transitive(before[j].0, last, item.0);
            if item.0.at_most(before[j].0) {
                K::lemma_transitive(item.0, before[j].0, last);
            }
        }
    }
    assert forall|i: int, j: int| 0 <= i < j < after.len() implies precedes(
        (#[trigger] after[i]).0,
        (#[trigger] after[j]).0,
    ) by {
        assert(precedes(before[i].0, item.0));
        if j < before.len() {
            assert(precedes(before[i].0, before[j].0));
        }
    }
    K::lemma_total(item.0, item.0);
    assert forall|i: int| 0 <= i < items.len() implies !same_rank(
        (#[trigger] items[i]).0,
        item.0,
    ) by {
        assert(has_bucket(items[i].0, before));
        let j = choose|j: int|
            0 <= j < before.len() && same_rank(items[i].0, (#[trigger] before[j]).0);
        assert(precedes(before[j].0, item.0));
        if same_rank(items[i].0, item.0) {
            K::lemma_transitive(item.0, items[i].0, before[j].0);
        }
    }
    lemma_with_rank_none(items, item.0);
    assert forall|j: int| 0 <= j < after.len() implies {
        &&& (#[trigger] after[j]).1@ == values(with_rank(longer, after[j].0))
        &&& after[j].1@.len() > 0
    } by {
        lemma_with_rank_push(items, item, after[j].0);
        if j < before.len() {
            assert(before[j].1@ == values(with_rank(items, before[j].0)));
            assert(precedes(before[j].0, item.0));
        } else {
            assert(values(with_rank(longer, item.0)) == seq![item.1]);
        }
    }
    assert forall|i: int| 0 <= i < longer.len() implies has_bucket(
        (#[trigger] longer[i]).0,
        after,
    ) by {
        if i < items.len() {
            assert(has_bucket(items[i].0, before));
            let j = choose|j: int|
                0 <= j < before.len() && same_rank(items[i].0, (#[trigger] before[j]).0);
            assert(same_rank(longer[i].0, after[j].0));
        } else {
            assert(same_rank(longer[i].0, after[after.len() - 1].0));
        }
    }
}

/// Put the items into buckets by key.
pub fn bucket_by_key<K: Ranked, T>(items: Vec<(K, T)>) -> (buckets: Vec<(K, Vec<T>)>)
    ensures
        is_bucketing(items@, buckets@),
{
    let ghost all = items@;
    let sorted = sort_by_key(items);
    let ghost run = sorted@;
    let mut rest = reversed(sorted);
    let mut buckets: Vec<(K, Vec<T>)> = Vec::new();
    let ghost mut done: int = 0;
    assert(run.skip(0) == run);
    while rest.len() > 0
        invariant
            0 <= done <= run.len(),
            rest@.len() == run.len() - done,
            rest@ == run.skip(done).reverse(),
            is_sorted(run),
            is_bucketing(run.take(done), buckets@),
            done == 0 ==> buckets.len() == 0,
            done > 0 ==> buckets.len() > 0 && same_rank(buckets@.last().0, run[done - 1].0),
        decreases rest.len(),
    {
        let ghost rest0 = rest@;
        match rest.pop() {
            Some((key, value)) => {
                let ghost item = (key, value);
                let ghost before = buckets@;
                proof {
                    assert(rest0.last() == run.skip(done)[0]);
                    assert(item == run[done]);
                    assert(run.take(done + 1) == run.take(done).push(item));
                    assert(rest@ == run.skip(done + 1).reverse());
                    K::lemma_total(key, key);
                    if done > 0 {
                        assert(run[done - 1].0.at_most(run[done].0));
                        K::lemma_transitive(before.last().0, run[done - 1].0, key);
                    }
                }
                let last = buckets.len();
                let joins = last > 0 && key.is_at_most(&buckets[last - 1].0);
                if joins {
                    match buckets.pop() {
                        Some((shared, members)) => {
                            let mut members = members;
                            members.push(value);
                            buckets.push((shared, members));
                            assert(buckets@.drop_last() == before.drop_last());
                        },
                        None => {},
                    }
                    proof {
                        lemma_join_bucket(run.take(done), item, before, buckets@);
                    }
                } else {
                    let mut members: Vec<T> = Vec::new();
                    members.push(value);
                    assert(members@ == seq![item.1]);
                    let ghost opened = (key, members);
                    buckets.push((key, members));
                    proof {
                        lemma_open_bucket(run.take(done), item, before, opened);
                    }
                }
                proof {
                    done = done + 1;
                }
            },
            None => {},
        }
    }
    proof {
        assert(run.take(done) == run);
        assert forall|j: int| 0 <= j < buckets@.len() implies {
            &&& (#[trigger] buckets@[j]).1@ == values(with_rank(all, buckets@[j].0))
            &&& buckets@[j].1@.len() > 0
        } by {
            assert(with_rank(run, buckets@[j].0) == with_rank(all, buckets@[j].0));
        }
        assert forall|i: int| 0 <= i < all.len() implies has_bucket(
            (#[trigger] all[i]).0,
            buckets@,
        ) by {
            lemma_in_own_rank(all, i);
            assert(with_rank(run, all[i].0).contains(all[i]));
            let j = choose|j: int|
                0 <= j < with_rank(run, all[i].0).len() && with_rank(run, all[i].0)[j] == all[i];
            lemma_rank_members(run, all[i].0, j);
            let n = choose|n: int| 0 <= n < run.len() && run[n] == all[i];
            assert(has_bucket(run[n].0, buckets@));
        }
    }
    buckets
}

/// The test for items that the order puts level with `item`.
pub open spec fn level_with<T>(order: spec_fn(T, T) -> bool, item: T) -> spec_fn(T) -> bool {
    |other: T| order(item, other) && order(other, item)
}

/// Whether `output` is `input` in the given order, items that are level with
/// each other in the order in which they came. Every item is level with
/// itself, so the output holds the same items as the input, as often.
pub open spec fn is_sorted_copy<T>(
    input: Seq<T>,
    output: Seq<T>,
    order: spec_fn(T, T) -> bool,
) -> bool {
    &&& output.len() == input.len()
    &&& forall|i: int, j: int|
        0 <= i < j < output.len() ==> order(#[trigger] output[i], #[trigger] output[j])
    &&& forall|item: T| #[trigger]
        output.filter(level_with(order, item)) == input.filter(level_with(order, item))
}

/// Whether any two items compare, and the comparison is transitive.
pub open spec fn is_order<T>(order: spec_fn(T, T) -> bool) -> bool {
    &&& forall|a: T, b: T| #[trigger] order(a, b) || #[trigger] order(b, a)
    &&& forall|a: T, b: T, c: T| #[trigger] order(a, b) && #[trigger] order(b, c) ==> order(a, c)
}

/// Nothing is kept where nothing passes the test.
pub proof fn lemma_filter_none<T>(items: Seq<T>, test: spec_fn(T) -> bool)
    requires
        forall|i: int| 0 <= i < items.len() ==> !test(#[trigger] items[i]),
    ensures
        items.filter(test) == Seq::<T>::empty(),
    decreases items.len(),
{
    reveal(Seq::filter);
    if items.len() > 0 {
        lemma_filter_none(items.drop_last(), test);
        assert(!test(items[items.len() - 1]));
    }
}

/// Tests that agree on every item keep the same items.
pub proof fn lemma_filter_agree<T>(items: Seq<T>, a: spec_fn(T) -> bool, b: spec_fn(T) -> bool)
    requires
        forall|i: int| 0 <= i < items.len() ==> a(#[trigger] items[i]) == b(items[i]),
    ensures
        items.filter(a) == items.filter(b),
    decreases items.len(),
{
    reveal(Seq::filter);
    if items.len() > 0 {
        lemma_filter_agree(items.drop_last(), a, b);
        assert(a(items[items.len() - 1]) == b(items[items.len() - 1]));
    }
}

/// What a filter keeps stands in the sequence and passes the test.
pub proof fn lemma_filter_members<T>(items: Seq<T>, test: spec_fn(T) -> bool, j: int)
    requires
        0 <= j < items.filter(test).len(),
    ensures
        items.contains(items.filter(test)[j]),
        test(items.filter(test)[j]),
    decreases items.len(),
{
    reveal(Seq::filter);
    if items.len() > 0 {
        let rest = items.drop_last();
        if j < rest.filter(test).len() {
            lemma_filter_members(rest, test, j);
            let i = choose|i: int| 0 <= i < rest.len() && rest[i] == rest.filter(test)[j];
            assert(items[i] == items.filter(test)[j]);
        } else {
            assert(items[items.len() - 1] == items.filter(test)[j]);
        }
    }
}

/// Where a test on what `show` makes of an item agrees with the rank of its
/// key, it keeps what `show` makes of the items of that rank.
pub proof fn lemma_shown_of_rank<K: Ranked, T, U>(
    items: Seq<(K, T)>,
    key: K,
    show: spec_fn((K, T)) -> U,
    test: spec_fn(U) -> bool,
)
    requires
        forall|i: int|
            0 <= i < items.len() ==> same_rank((#[trigger] items[i]).0, key) == test(
                show(items[i]),
            ),
    ensures
        with_rank(items, key).map_values(show) == items.map_values(show).filter(test),
    decreases items.len(),
{
    reveal(Seq::filter);
    if items.len() > 0 {
        let rest = items.drop_last();
        lemma_shown_of_rank(rest, key, show, test);
        assert(items.map_values(show).drop_last() == rest.map_values(show));
        assert(same_rank(items[items.len() - 1].0, key) == test(show(items[items.len() - 1])));
        if same_rank(items.last().0, key) {
            assert(with_rank(rest, key).push(items.last()).map_values(show) == with_rank(
                rest,
                key,
            ).map_values(show).push(show(items.last())));
        }
    } else {
        assert(with_rank(items, key).map_values(show) == items.map_values(show).filter(test));
    }
}

/// Sorting by keys sorts what `show` makes of the items, where the keys are
/// ordered as that is.
pub proof fn lemma_sorted_shown<K: Ranked, T, U>(
    input: Seq<(K, T)>,
    output: Seq<(K, T)>,
    show: spec_fn((K, T)) -> U,
    order: spec_fn(U, U) -> bool,
)
    requires
        is_stable_sort(input, output),
        is_order(order),
        forall|i: int, j: int|
            0 <= i < input.len() && 0 <= j < input.len() ==> (#[trigger] input[i]).0.at_most(
                (#[trigger] input[j]).0,
            ) == order(show(input[i]), show(input[j])),
    ensures
        is_sorted_copy(input.map_values(show), output.map_values(show), order),
{
    broadcast use vstd::seq_lib::to_multiset_len;
    broadcast use vstd::seq_lib::to_multiset_contains;

    assert(output.to_multiset().len() == output.len() && input.to_multiset().len() == input.len());
    let ins = input.map_values(show);
    let outs = output.map_values(show);
    assert forall|i: int| 0 <= i < output.len() implies input.contains(#[trigger] output[i]) by {
        assert(output.contains(output[i]));
        assert(output.to_multiset().count(output[i]) > 0);
    }
    assert forall|i: int, j: int|
        0 <= i < output.len() && 0 <= j < output.len() implies (#[trigger] output[i]).0.at_most(
        (#[trigger] output[j]).0,
    ) == order(show(output[i]), show(output[j])) by {
        let a = choose|a: int| 0 <= a < input.len() && input[a] == output[i];
        let b = choose|b: int| 0 <= b < input.len() && input[b] == output[j];
        assert(input[a].0.at_most(input[b].0) == order(show(input[a]), show(input[b])));
    }
    assert forall|i: int, j: int| 0 <= i < j < outs.len() implies order(
        #[trigger] outs[i],
        #[trigger] outs[j],
    ) by {
        assert(output[i].0.at_most(output[j].0));
    }
    assert forall|item: U| #[trigger]
        outs.filter(level_with(order, item)) == ins.filter(level_with(order, item)) by {
        let test = level_with(order, item);
        if exists|n: int| 0 <= n < input.len() && test(show(#[trigger] input[n])) {
            let n = choose|n: int| 0 <= n < input.len() && test(show(#[trigger] input[n]));
            let key = input[n].0;
            let like = show(input[n]);
            assert(order(item, like) && order(like, item));
            assert forall|i: int| 0 <= i < input.len() implies same_rank(
                (#[trigger] input[i]).0,
                key,
            ) == test(show(input[i])) by {
                lemma_level(order, item, like, show(input[i]));
            }
            assert forall|i: int| 0 <= i < output.len() implies same_rank(
                (#[trigger] output[i]).0,
                key,
            ) == test(show(output[i])) by {
                let a = choose|a: int| 0 <= a < input.len() && input[a] == output[i];
                assert(same_rank(input[a].0, key) == test(show(input[a])));
            }
            lemma_shown_of_rank(input, key, show, test);
            lemma_shown_of_rank(output, key, show, test);
            assert(with_rank(output, key) == with_rank(input, key));
        } else {
            assert forall|i: int| 0 <= i < ins.len() implies !test(#[trigger] ins[i]) by {
                assert(ins[i] == show(input[i]));
            }
            assert forall|i: int| 0 <= i < outs.len() implies !test(#[trigger] outs[i]) by {
                let a = choose|a: int| 0 <= a < input.len() && input[a] == output[i];
                assert(outs[i] == show(input[a]));
            }
            lemma_filter_none(ins, test);
            lemma_filter_none(outs, test);
        }
    }
}

/// What is level with one of two level items is level with the other.
proof fn lemma_level<T>(order: spec_fn(T, T) -> bool, item: T, like: T, other: T)
    requires
        is_order(order),
        order(item, like),
        order(like, item),
    ensures
        (order(like, other) && order(other, like)) == (order(item, other) && order(other, item)),
{
    if order(like, other) && order(other, like) {
        assert(order(item, like) && order(like, other));
        assert(order(other, like) && order(like, item));
    }
    if order(item, other) && order(other, item) {
        assert(order(like, item) && order(item, other));
        assert(order(other, item) && order(item, like));
    }
}

/// There is one sorted copy of a sequence.
pub proof fn law_sorted_copy_is_unique<T>(
    input: Seq<T>,
    a: Seq<T>,
    b: Seq<T>,
    order: spec_fn(T, T) -> bool,
)
    requires
        is_order(order),
        is_sorted_copy(input, a, order),
        is_sorted_copy(input, b, order),
    ensures
        a == b,
{
    assert forall|item: T| #[trigger]
        a.filter(level_with(order, item)) == b.filter(level_with(order, item)) by {
        assert(a.filter(level_with(order, item)) == input.filter(level_with(order, item)));
    }
    lemma_sorted_unique(a, b, order);
}

proof fn lemma_sorted_unique<T>(a: Seq<T>, b: Seq<T>, order: spec_fn(T, T) -> bool)
    requires
        is_order(order),
        a.len() == b.len(),
        forall|i: int, j: int| 0 <= i < j < a.len() ==> order(#[trigger] a[i], #[trigger] a[j]),
        forall|i: int, j: int| 0 <= i < j < b.len() ==> order(#[trigger] b[i], #[trigger] b[j]),
        forall|item: T| #[trigger]
            a.filter(level_with(order, item)) == b.filter(level_with(order, item)),
    ensures
        a == b,
    decreases a.len(),
{
    if a.len() == 0 {
        assert(a == b);
    } else {
        let x = a.last();
        let y = b.last();
        lemma_reaches_last(a, b, order, y);
        lemma_reaches_last(b, a, order, x);
        let test = level_with(order, x);
        assert(a.filter(test) == b.filter(test));
        assert(order(x, x));
        assert(test(x) && test(y));
        assert(a.filter(test).last() == x && b.filter(test).last() == y) by {
            reveal(Seq::filter);
        }
        assert forall|item: T| #[trigger]
            a.drop_last().filter(level_with(order, item)) == b.drop_last().filter(
                level_with(order, item),
            ) by {
            reveal(Seq::filter);
            let t = level_with(order, item);
            assert(a.filter(t) == b.filter(t));
            if t(x) {
                assert(a.drop_last().filter(t) == a.filter(t).drop_last());
                assert(b.drop_last().filter(t) == b.filter(t).drop_last());
            }
        }
        lemma_sorted_unique(a.drop_last(), b.drop_last(), order);
        assert(a == a.drop_last().push(x));
        assert(b == b.drop_last().push(y));
    }
}

/// An item of the one sequence comes no later than the last of the other.
proof fn lemma_reaches_last<T>(a: Seq<T>, b: Seq<T>, order: spec_fn(T, T) -> bool, item: T)
    requires
        is_order(order),
        a.len() > 0,
        forall|i: int, j: int| 0 <= i < j < a.len() ==> order(#[trigger] a[i], #[trigger] a[j]),
        b.contains(item),
        a.filter(level_with(order, item)) == b.filter(level_with(order, item)),
    ensures
        order(item, a.last()),
{
    let test = level_with(order, item);
    let n = choose|n: int| 0 <= n < b.len() && b[n] == item;
    assert(order(item, item));
    assert(test(b[n]));
    b.lemma_filter_contains(test, n);
    assert(a.filter(test).contains(item));
    let m = choose|m: int| 0 <= m < a.filter(test).len() && a.filter(test)[m] == item;
    lemma_filter_members(a, test, m);
    let i = choose|i: int| 0 <= i < a.len() && a[i] == item;
    if i < a.len() - 1 {
        assert(order(a[i], a[a.len() - 1]));
    }
}

/// An item occurs as often among those that pass a test as in all, if it
/// passes.
proof fn lemma_count_in_filter<T>(items: Seq<T>, test: spec_fn(T) -> bool, item: T)
    requires
        test(item),
    ensures
        items.filter(test).to_multiset().count(item) == items.to_multiset().count(item),
    decreases items.len(),
{
    broadcast use vstd::multiset::group_multiset_axioms;
    broadcast use vstd::seq_lib::group_to_multiset_ensures;

    reveal(Seq::filter);
    if items.len() > 0 {
        let rest = items.drop_last();
        lemma_count_in_filter(rest, test, item);
        assert(items == rest.push(items.last()));
    }
}

/// A sorted copy holds the same items, as often.
pub proof fn law_sorted_copy_is_a_permutation<T>(
    input: Seq<T>,
    output: Seq<T>,
    order: spec_fn(T, T) -> bool,
)
    requires
        is_order(order),
        is_sorted_copy(input, output, order),
    ensures
        output.to_multiset() == input.to_multiset(),
{
    broadcast use vstd::multiset::group_multiset_axioms;

    assert forall|item: T| #[trigger]
        output.to_multiset().count(item) == input.to_multiset().count(item) by {
        let test = level_with(order, item);
        assert(order(item, item));
        assert(output.filter(test) == input.filter(test));
        lemma_count_in_filter(input, test, item);
        lemma_count_in_filter(output, test, item);
    }
    assert(output.to_multiset() =~= input.to_multiset());
}

/// A member of a bucket is one of the items bucketed, with a key of that rank.
pub proof fn lemma_bucket_source<K: Ranked, T>(
    items: Seq<(K, T)>,
    buckets: Seq<(K, Vec<T>)>,
    b: int,
    m: int,
) -> (i: int)
    requires
        is_bucketing(items, buckets),
        0 <= b < buckets.len(),
        0 <= m < buckets[b].1@.len(),
    ensures
        0 <= i < items.len(),
        items[i].1 == buckets[b].1@[m],
        same_rank(items[i].0, buckets[b].0),
{
    let held = with_rank(items, buckets[b].0);
    assert(buckets[b].1@ == values(held));
    lemma_filter_members(items, ranked_with(buckets[b].0), m);
    choose|i: int| 0 <= i < items.len() && items[i] == held[m]
}

} // verus!
