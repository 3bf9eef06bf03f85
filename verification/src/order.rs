//! Ordered sequences of keys.

use vstd::prelude::*;

verus! {

/// Every element is at most the ones behind it.
pub open spec fn sorted(values: Seq<u64>) -> bool {
    forall|i: int, j: int| 0 <= i <= j < values.len() ==> values[i] <= values[j]
}

/// Every element is less than the ones behind it.
pub open spec fn increasing(values: Seq<u64>) -> bool {
    forall|i: int, j: int| 0 <= i < j < values.len() ==> values[i] < values[j]
}

/// Calls `[u64]::sort_unstable`. The contract says that the same elements come
/// back in ascending order.
#[verifier::external_body]
pub(crate) fn sort(values: &mut Vec<u64>)
    ensures
        sorted(final(values)@),
        final(values)@.to_multiset() == old(values)@.to_multiset(),
{
    values.sort_unstable();
}

/// Sequences with the same elements in the same numbers have the same element
/// set.
pub proof fn lemma_same_multiset_same_set<T>(left: Seq<T>, right: Seq<T>)
    requires
        left.to_multiset() == right.to_multiset(),
    ensures
        left.to_set() == right.to_set(),
        left.len() == right.len(),
{
    left.to_multiset_ensures();
    right.to_multiset_ensures();
    assert forall|x: T| left.to_set().contains(x) == right.to_set().contains(x) by {
        assert(left.contains(x) == (left.to_multiset().count(x) > 0));
        assert(right.contains(x) == (right.to_multiset().count(x) > 0));
    }
    assert(left.to_set() =~= right.to_set());
}

/// The elements of a set have only one ascending arrangement without
/// repetition.
pub proof fn law_increasing_is_unique(left: Seq<u64>, right: Seq<u64>)
    requires
        increasing(left),
        increasing(right),
        left.to_set() == right.to_set(),
    ensures
        left == right,
    decreases left.len() + right.len(),
{
    if left.len() == 0 {
        if right.len() > 0 {
            assert(right.to_set().contains(right[0]));
            assert(left.to_set().contains(right[0]));
        }
        assert(left =~= right);
    } else if right.len() == 0 {
        assert(left.to_set().contains(left[0]));
        assert(right.to_set().contains(left[0]));
    } else {
        let x = left.last();
        let y = right.last();
        assert(left.to_set().contains(x));
        assert(right.to_set().contains(x));
        let i = choose|i: int| 0 <= i < right.len() && right[i] == x;
        assert(right.to_set().contains(y));
        assert(left.to_set().contains(y));
        let j = choose|j: int| 0 <= j < left.len() && left[j] == y;
        assert(x <= y);
        assert(y <= x);
        let a = left.drop_last();
        let b = right.drop_last();
        assert forall|v: u64| a.to_set().contains(v) == b.to_set().contains(v) by {
            if a.contains(v) {
                let k = choose|k: int| 0 <= k < a.len() && a[k] == v;
                assert(left[k] == v);
                assert(left.to_set().contains(v));
                assert(right.to_set().contains(v));
                let m = choose|m: int| 0 <= m < right.len() && right[m] == v;
                assert(v < x);
                assert(b[m] == v);
            }
            if b.contains(v) {
                let k = choose|k: int| 0 <= k < b.len() && b[k] == v;
                assert(right[k] == v);
                assert(right.to_set().contains(v));
                assert(left.to_set().contains(v));
                let m = choose|m: int| 0 <= m < left.len() && left[m] == v;
                assert(v < y);
                assert(a[m] == v);
            }
        }
        assert(a.to_set() =~= b.to_set());
        law_increasing_is_unique(a, b);
        assert(left =~= a.push(x));
        assert(right =~= b.push(y));
    }
}

/// Elements have only one sorted arrangement.
pub proof fn law_sorted_is_unique(left: Seq<u64>, right: Seq<u64>)
    requires
        sorted(left),
        sorted(right),
        left.to_multiset() == right.to_multiset(),
    ensures
        left == right,
    decreases left.len(),
{
    lemma_same_multiset_same_set(left, right);
    if left.len() == 0 {
        assert(left =~= right);
    } else {
        let n = left.len() - 1;
        assert(left.to_set().contains(left[n]));
        assert(right.to_set().contains(left[n]));
        assert(right.to_set().contains(right[n]));
        assert(left.to_set().contains(right[n]));
        left.to_multiset_ensures();
        right.to_multiset_ensures();
        assert(left[n] == right[n]);
        assert(left.remove(n) =~= left.drop_last());
        assert(right.remove(n) =~= right.drop_last());
        assert(left.drop_last().to_multiset() == left.to_multiset().remove(left[n]));
        assert(right.drop_last().to_multiset() == right.to_multiset().remove(right[n]));
        law_sorted_is_unique(left.drop_last(), right.drop_last());
        assert(left =~= left.drop_last().push(left[n]));
        assert(right =~= right.drop_last().push(right[n]));
    }
}

/// Drop the repetitions in a sorted vector.
pub(crate) fn dedup(values: Vec<u64>) -> (unique: Vec<u64>)
    requires
        sorted(values@),
    ensures
        increasing(unique@),
        unique@.to_set() == values@.to_set(),
{
    let mut unique: Vec<u64> = Vec::new();
    let mut index: usize = 0;
    while index < values.len()
        invariant
            index <= values@.len(),
            sorted(values@),
            increasing(unique@),
            unique@.len() > 0 ==> index > 0 && unique@.last() == values@[index - 1],
            index > 0 ==> unique@.len() > 0,
            forall|i: int| 0 <= i < index ==> unique@.contains(#[trigger] values@[i]),
            forall|i: int| 0 <= i < unique@.len() ==> values@.contains(#[trigger] unique@[i]),
        decreases values@.len() - index,
    {
        let value: u64 = values[index];
        let ghost before = unique@;
        if unique.len() == 0 || unique[unique.len() - 1] != value {
            unique.push(value);
            proof {
                assert forall|i: int| 0 <= i < index + 1 implies unique@.contains(
                    #[trigger] values@[i],
                ) by {
                    if i < index {
                        let k = choose|k: int| 0 <= k < before.len() && before[k] == values@[i];
                        assert(unique@[k] == values@[i]);
                    } else {
                        assert(unique@[unique@.len() - 1] == value);
                    }
                }
                assert(values@[index as int] == value);
            }
        } else {
            assert(unique@[unique@.len() - 1] == values@[index as int]);
        }
        index = index + 1;
    }
    proof {
        assert forall|v: u64| unique@.to_set().contains(v) == values@.to_set().contains(v) by {
            if unique@.contains(v) {
                let k = choose|k: int| 0 <= k < unique@.len() && unique@[k] == v;
                assert(values@.contains(unique@[k]));
            }
            if values@.contains(v) {
                let k = choose|k: int| 0 <= k < values@.len() && values@[k] == v;
                assert(unique@.contains(values@[k]));
            }
        }
        assert(unique@.to_set() =~= values@.to_set());
    }
    unique
}

/// The elements of `values`, each once, in ascending order.
pub fn sorted_unique(values: Vec<u64>) -> (unique: Vec<u64>)
    ensures
        increasing(unique@),
        unique@.to_set() == values@.to_set(),
{
    let mut values = values;
    let ghost before = values@;
    sort(&mut values);
    proof {
        lemma_same_multiset_same_set(values@, before);
    }
    dedup(values)
}

} // verus!
