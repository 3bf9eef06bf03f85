//! Changes on top of a committed index.
//!
//! A file is never changed in place. What was inserted since it was written is
//! held in memory, and the keys that were removed from it are noted; both go into
//! the next file.

use vstd::prelude::*;

use crate::index::lsh::LshState;
use crate::order;
use crate::sketch::minhash32::Sketch32;

verus! {

/// A key is among keys in ascending order.
fn holds(keys: &[u64], wanted: u64) -> (found: bool)
    requires
        order::increasing(keys@),
    ensures
        found == keys@.contains(wanted),
{
    let mut low: usize = 0;
    let mut high: usize = keys.len();
    while low < high
        invariant
            low <= high <= keys@.len(),
            order::increasing(keys@),
            forall|i: int| 0 <= i < low ==> keys@[i] < wanted,
            forall|i: int| high <= i < keys@.len() ==> keys@[i] > wanted,
        decreases high - low,
    {
        let middle: usize = low + (high - low) / 2;
        let key: u64 = keys[middle];
        if key == wanted {
            assert(keys@[middle as int] == wanted);
            return true;
        } else if key < wanted {
            low = middle + 1;
        } else {
            high = middle;
        }
    }
    false
}

/// The sequence holds, in ascending order, the committed keys that are not gone
/// and the fresh keys.
pub open spec fn is_overlaid(
    committed: Seq<u64>,
    gone: Seq<u64>,
    fresh: Seq<u64>,
    merged: Seq<u64>,
) -> bool {
    &&& order::increasing(merged)
    &&& forall|key: u64| #[trigger]
        merged.contains(key) <==> (committed.contains(key) && !gone.contains(key))
            || fresh.contains(key)
}

/// The answer of an index, given the answer of its committed part, the keys that
/// were removed from there in ascending order, and the answer of what was inserted
/// since.
pub fn overlay_answer(committed: &[u64], gone: &[u64], fresh: &[u64]) -> (merged: Vec<u64>)
    requires
        order::increasing(gone@),
    ensures
        is_overlaid(committed@, gone@, fresh@, merged@),
{
    let mut keys: Vec<u64> = Vec::new();
    let mut index: usize = 0;
    while index < committed.len()
        invariant
            index <= committed@.len(),
            order::increasing(gone@),
            forall|key: u64| #[trigger]
                keys@.contains(key) <==> committed@.take(index as int).contains(key)
                    && !gone@.contains(key),
        decreases committed@.len() - index,
    {
        let ghost before = keys@;
        let next: u64 = committed[index];
        if !holds(gone, next) {
            keys.push(next);
        }
        proof {
            let longer = committed@.take(index + 1);
            assert(longer =~= committed@.take(index as int).push(next));
            assert forall|key: u64| #[trigger]
                keys@.contains(key) <==> longer.contains(key) && !gone@.contains(key) by {
                lemma_push(before, next, key);
                lemma_push(committed@.take(index as int), next, key);
            }
        }
        index = index + 1;
    }
    assert(committed@.take(index as int) =~= committed@);
    let ghost kept = keys@;
    keys.extend_from_slice(fresh);
    let ghost all = keys@;
    assert(all =~= kept + fresh@);
    let merged = order::sorted_unique(keys);
    proof {
        assert forall|key: u64| #[trigger]
            merged@.contains(key) <==> (committed@.contains(key) && !gone@.contains(key))
                || fresh@.contains(key) by {
            assert(merged@.contains(key) == merged@.to_set().contains(key));
            assert(all.contains(key) == all.to_set().contains(key));
            lemma_sum(kept, fresh@, key);
        }
    }
    merged
}

proof fn lemma_push(keys: Seq<u64>, next: u64, key: u64)
    ensures
        keys.push(next).contains(key) <==> keys.contains(key) || key == next,
{
    let longer = keys.push(next);
    if keys.contains(key) {
        let i = choose|i: int| 0 <= i < keys.len() && keys[i] == key;
        assert(longer[i] == key);
    }
    assert(longer[keys.len() as int] == next);
}

proof fn lemma_sum(left: Seq<u64>, right: Seq<u64>, key: u64)
    ensures
        (left + right).contains(key) <==> left.contains(key) || right.contains(key),
{
    let sum = left + right;
    if left.contains(key) {
        let i = choose|i: int| 0 <= i < left.len() && left[i] == key;
        assert(sum[i] == key);
    }
    if right.contains(key) {
        let i = choose|i: int| 0 <= i < right.len() && right[i] == key;
        assert(sum[left.len() + i] == key);
    }
}

/// The whole index: the committed items that are not gone, and the fresh items. A
/// committed key that was inserted again is gone from the committed part.
pub open spec fn is_whole(
    base: LshState,
    gone: Seq<u64>,
    fresh: LshState,
    whole: LshState,
) -> bool {
    &&& base.params == whole.params
    &&& fresh.params == whole.params
    &&& forall|key: u64| #[trigger]
        whole.items.contains_key(key) <==> (base.items.contains_key(key) && !gone.contains(key))
            || fresh.items.contains_key(key)
    &&& forall|key: u64|
        base.items.contains_key(key) && !gone.contains(key) ==> #[trigger] whole.items[key]
            == base.items[key]
    &&& forall|key: u64|
        fresh.items.contains_key(key) ==> #[trigger] whole.items[key] == fresh.items[key]
}

/// Overlaying the answers of the two parts of an index gives the answer of the
/// whole.
pub proof fn law_overlaid_answers_match(
    base: LshState,
    gone: Seq<u64>,
    fresh: LshState,
    whole: LshState,
    sketch: Sketch32,
    committed: Seq<u64>,
    newer: Seq<u64>,
    merged: Seq<u64>,
)
    requires
        is_whole(base, gone, fresh, whole),
        base.is_answer(sketch, committed),
        fresh.is_answer(sketch, newer),
        is_overlaid(committed, gone, newer, merged),
    ensures
        whole.is_answer(sketch, merged),
{
    let hashes = whole.hashes(sketch);
    assert forall|key: u64| merged.contains(key) <==> #[trigger] whole.is_candidate(
        key,
        hashes,
    ) by {
        if committed.contains(key) && !gone.contains(key) {
            assert(base.is_candidate(key, base.hashes(sketch)));
            let band = choose|band: int|
                0 <= band < base.params.bands && #[trigger] base.items[key][band] == hashes[band];
            assert(whole.items.contains_key(key));
            assert(whole.items[key][band] == hashes[band]);
        }
        if newer.contains(key) {
            assert(fresh.is_candidate(key, fresh.hashes(sketch)));
            let band = choose|band: int|
                0 <= band < fresh.params.bands && #[trigger] fresh.items[key][band] == hashes[band];
            assert(whole.items.contains_key(key));
            assert(whole.items[key][band] == hashes[band]);
        }
        if whole.is_candidate(key, hashes) {
            let band = choose|band: int|
                0 <= band < whole.params.bands && #[trigger] whole.items[key][band] == hashes[band];
            if fresh.items.contains_key(key) {
                assert(fresh.items[key][band] == hashes[band]);
                assert(fresh.is_candidate(key, fresh.hashes(sketch)));
                assert(newer.contains(key));
            } else {
                assert(base.items[key][band] == hashes[band]);
                assert(base.is_candidate(key, base.hashes(sketch)));
                assert(committed.contains(key));
            }
        }
    }
}

/// An overlaid answer lists in ascending order, each once, the committed keys that are not
/// gone and the fresh keys.
pub proof fn law_overlaid_keys(
    committed: Seq<u64>,
    gone: Seq<u64>,
    fresh: Seq<u64>,
    merged: Seq<u64>,
)
    requires
        is_overlaid(committed, gone, fresh, merged),
    ensures
        forall|i: int, j: int| 0 <= i < j < merged.len() ==> merged[i] < merged[j],
        forall|i: int|
            0 <= i < committed.len() && !gone.contains(#[trigger] committed[i])
                ==> merged.contains(committed[i]),
        forall|i: int| 0 <= i < fresh.len() ==> merged.contains(#[trigger] fresh[i]),
        forall|i: int|
            0 <= i < merged.len() ==> fresh.contains(#[trigger] merged[i]) || (committed.contains(
                merged[i],
            ) && !gone.contains(merged[i])),
{
    assert forall|i: int| 0 <= i < committed.len() && !gone.contains(#[trigger] committed[i]) implies merged.contains(
        committed[i],
    ) by {
        assert(committed.contains(committed[i]));
    }
    assert forall|i: int| 0 <= i < fresh.len() implies merged.contains(#[trigger] fresh[i]) by {
        assert(fresh.contains(fresh[i]));
    }
    assert forall|i: int| 0 <= i < merged.len() implies fresh.contains(#[trigger] merged[i]) || (
    committed.contains(merged[i]) && !gone.contains(merged[i])) by {
        assert(merged.contains(merged[i]));
    }
}

} // verus!
