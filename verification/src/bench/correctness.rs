//! Ground truth for candidate sets.

use std::collections::HashSet;
use vstd::prelude::*;

use crate::order;
use crate::ratio::Ratio;

verus! {

broadcast use vstd::std_specs::hash::group_hash_axioms;

/// How many elements two increasing sequences share.
pub open spec fn common(left: Seq<u64>, right: Seq<u64>) -> nat
    decreases left.len() + right.len(),
{
    if left.len() == 0 || right.len() == 0 {
        0
    } else if left[0] < right[0] {
        common(left.skip(1), right)
    } else if right[0] < left[0] {
        common(left, right.skip(1))
    } else {
        common(left.skip(1), right.skip(1)) + 1
    }
}

proof fn lemma_rest(values: Seq<u64>)
    requires
        order::increasing(values),
        values.len() > 0,
    ensures
        order::increasing(values.skip(1)),
        values.to_set() == values.skip(1).to_set().insert(values[0]),
        !values.skip(1).to_set().contains(values[0]),
        forall|v: u64| #[trigger] values.to_set().contains(v) ==> v >= values[0],
        values.to_set().finite(),
{
    let rest = values.skip(1);
    assert forall|v: u64| values.to_set().contains(v) <==> rest.to_set().insert(
        values[0],
    ).contains(v) by {
        if values.contains(v) {
            let i = choose|i: int| 0 <= i < values.len() && values[i] == v;
            if i > 0 {
                assert(rest[i - 1] == v);
            }
        }
        if rest.contains(v) {
            let i = choose|i: int| 0 <= i < rest.len() && rest[i] == v;
            assert(values[i + 1] == v);
        }
        assert(values[0] == values[0]);
    }
    assert(values.to_set() =~= rest.to_set().insert(values[0]));
    assert(values.to_set().finite()) by {
        vstd::seq_lib::seq_to_set_is_finite(values);
    }
}

/// What two increasing sequences share is the size of the intersection of
/// their sets of elements.
pub proof fn law_common_is_intersection(left: Seq<u64>, right: Seq<u64>)
    requires
        order::increasing(left),
        order::increasing(right),
    ensures
        common(left, right) == left.to_set().intersect(right.to_set()).len(),
        common(left, right) <= left.len(),
        common(left, right) <= right.len(),
    decreases left.len() + right.len(),
{
    let both = left.to_set().intersect(right.to_set());
    if left.len() == 0 || right.len() == 0 {
        assert(both =~= Set::empty());
    } else {
        lemma_rest(left);
        lemma_rest(right);
        if left[0] < right[0] {
            law_common_is_intersection(left.skip(1), right);
            assert(both =~= left.skip(1).to_set().intersect(right.to_set()));
        } else if right[0] < left[0] {
            law_common_is_intersection(left, right.skip(1));
            assert(both =~= left.to_set().intersect(right.skip(1).to_set()));
        } else {
            law_common_is_intersection(left.skip(1), right.skip(1));
            let inner = left.skip(1).to_set().intersect(right.skip(1).to_set());
            assert(both =~= inner.insert(left[0]));
            assert(!inner.contains(left[0]));
        }
    }
}

/// Sharing is mutual, and a set shares all of itself with itself.
pub proof fn law_common_is_symmetric(left: Seq<u64>, right: Seq<u64>)
    requires
        order::increasing(left),
        order::increasing(right),
    ensures
        common(left, right) == common(right, left),
        common(left, left) == left.len(),
{
    law_common_is_intersection(left, right);
    law_common_is_intersection(right, left);
    law_common_is_intersection(left, left);
    assert(left.to_set().intersect(right.to_set()) =~= right.to_set().intersect(left.to_set()));
    assert(left.to_set().intersect(left.to_set()) =~= left.to_set());
    assert(left.no_duplicates());
    left.unique_seq_to_set();
}

/// The sizes of the intersection and of the union of two sets.
pub fn overlap(left: &[u64], right: &[u64]) -> (sizes: (usize, usize))
    requires
        order::increasing(left@),
        order::increasing(right@),
        left@.len() + right@.len() <= usize::MAX,
    ensures
        sizes.0 == common(left@, right@),
        sizes.1 == left@.len() + right@.len() - common(left@, right@),
{
    let mut left_index: usize = 0;
    let mut right_index: usize = 0;
    let mut intersection: usize = 0;
    assert(left@.skip(0) =~= left@);
    assert(right@.skip(0) =~= right@);
    proof {
        law_common_is_intersection(left@, right@);
    }
    while left_index < left.len() && right_index < right.len()
        invariant
            left_index <= left@.len(),
            right_index <= right@.len(),
            common(left@, right@) == intersection + common(
                left@.skip(left_index as int),
                right@.skip(right_index as int),
            ),
            common(left@, right@) <= left@.len(),
            common(left@, right@) <= right@.len(),
            left@.len() + right@.len() <= usize::MAX,
        decreases left@.len() - left_index + right@.len() - right_index,
    {
        proof {
            let a = left@.skip(left_index as int);
            let b = right@.skip(right_index as int);
            assert(a.skip(1) =~= left@.skip(left_index + 1));
            assert(b.skip(1) =~= right@.skip(right_index + 1));
        }
        let a: u64 = left[left_index];
        let b: u64 = right[right_index];
        if a < b {
            left_index = left_index + 1;
        } else if b < a {
            right_index = right_index + 1;
        } else {
            intersection = intersection + 1;
            left_index = left_index + 1;
            right_index = right_index + 1;
        }
    }
    (intersection, left.len() + (right.len() - intersection))
}

/// A share of a whole; the share of nothing in nothing is everything.
pub open spec fn share(part: u64, whole: u64) -> Ratio {
    if whole == 0 {
        if part == 0 {
            Ratio { numerator: 1, denominator: 1 }
        } else {
            Ratio { numerator: 0, denominator: 1 }
        }
    } else {
        Ratio { numerator: part, denominator: whole }
    }
}

/// The share of a part in a whole.
pub fn ratio(part: usize, whole: usize) -> (ratio: Ratio)
    ensures
        ratio == share(part as u64, whole as u64),
        ratio.denominator > 0,
{
    if whole == 0 {
        if part == 0 {
            Ratio { numerator: 1, denominator: 1 }
        } else {
            Ratio { numerator: 0, denominator: 1 }
        }
    } else {
        Ratio { numerator: part as u64, denominator: whole as u64 }
    }
}

/// How candidates compare with the ground truth.
#[derive(Debug, Clone, Copy, PartialEq, Eq, Structural)]
pub struct CandidateCounts {
    /// Pairs of a query and an item that are similar.
    pub exact_matches: usize,
    /// Similar pairs whose item is a candidate.
    pub found_exact: usize,
    /// Candidates of all queries.
    pub total_candidates: usize,
    /// Candidates that are similar to their query.
    pub exact_candidates: usize,
}

impl CandidateCounts {
    /// The share of similar items that were found.
    pub fn recall(&self) -> (recall: Ratio)
        ensures
            recall == share(self.found_exact as u64, self.exact_matches as u64),
    {
        ratio(self.found_exact, self.exact_matches)
    }

    /// The share of candidates that are similar.
    pub fn precision(&self) -> (precision: Ratio)
        ensures
            precision == share(self.exact_candidates as u64, self.total_candidates as u64),
    {
        ratio(self.exact_candidates, self.total_candidates)
    }

    /// The number of candidates per query.
    pub fn average_candidates(&self, queries: usize) -> (average: Ratio)
        ensures
            average == share(self.total_candidates as u64, queries as u64),
    {
        ratio(self.total_candidates, queries)
    }
}

/// How many of the first `upto` items are similar to a query.
pub open spec fn similar(row: Seq<bool>, upto: nat) -> nat
    decreases upto,
{
    if upto == 0 {
        0
    } else {
        similar(row, (upto - 1) as nat) + if row[upto - 1] {
            1nat
        } else {
            0nat
        }
    }
}

/// How many of the first `upto` items are similar to a query and among its
/// candidates.
pub open spec fn similar_found(row: Seq<bool>, candidates: Seq<u64>, upto: nat) -> nat
    decreases upto,
{
    if upto == 0 {
        0
    } else {
        similar_found(row, candidates, (upto - 1) as nat) + if row[upto - 1]
            && candidates.contains((upto - 1) as u64) {
            1nat
        } else {
            0nat
        }
    }
}

/// The candidate is an item that is similar to the query.
pub open spec fn is_similar(row: Seq<bool>, candidate: u64) -> bool {
    candidate < row.len() && row[candidate as int]
}

/// How many of the first `upto` candidates are similar to a query.
pub open spec fn candidates_similar(row: Seq<bool>, candidates: Seq<u64>, upto: nat) -> nat
    decreases upto,
{
    if upto == 0 {
        0
    } else {
        candidates_similar(row, candidates, (upto - 1) as nat) + if is_similar(
            row,
            candidates[upto - 1],
        ) {
            1nat
        } else {
            0nat
        }
    }
}

/// The counts of the first `upto` queries.
pub open spec fn counts(truth: Seq<Vec<bool>>, results: Seq<Vec<u64>>, upto: nat) -> (
    nat,
    nat,
    nat,
    nat,
)
    decreases upto,
{
    if upto == 0 {
        (0, 0, 0, 0)
    } else {
        let before = counts(truth, results, (upto - 1) as nat);
        let row = truth[upto - 1]@;
        let found = results[upto - 1]@;
        (
            before.0 + similar(row, row.len()),
            before.1 + similar_found(row, found, row.len()),
            before.2 + found.len(),
            before.3 + candidates_similar(row, found, found.len()),
        )
    }
}

/// How many pairs of a query and an item there are, and how many candidates.
pub open spec fn volume(truth: Seq<Vec<bool>>, results: Seq<Vec<u64>>, upto: nat) -> (nat, nat)
    decreases upto,
{
    if upto == 0 {
        (0, 0)
    } else {
        let before = volume(truth, results, (upto - 1) as nat);
        (before.0 + truth[upto - 1]@.len(), before.1 + results[upto - 1]@.len())
    }
}

proof fn lemma_row_bounds(row: Seq<bool>, candidates: Seq<u64>, items: nat, found: nat)
    ensures
        similar(row, items) <= items,
        similar_found(row, candidates, items) <= similar(row, items),
        candidates_similar(row, candidates, found) <= found,
    decreases items + found,
{
    if items > 0 {
        lemma_row_bounds(row, candidates, (items - 1) as nat, found);
    } else if found > 0 {
        lemma_row_bounds(row, candidates, items, (found - 1) as nat);
    }
}

proof fn lemma_count_bounds(truth: Seq<Vec<bool>>, results: Seq<Vec<u64>>, upto: nat)
    ensures
        counts(truth, results, upto).0 <= volume(truth, results, upto).0,
        counts(truth, results, upto).1 <= counts(truth, results, upto).0,
        counts(truth, results, upto).2 == volume(truth, results, upto).1,
        counts(truth, results, upto).3 <= counts(truth, results, upto).2,
    decreases upto,
{
    if upto > 0 {
        lemma_count_bounds(truth, results, (upto - 1) as nat);
        let row = truth[upto - 1]@;
        let found = results[upto - 1]@;
        lemma_row_bounds(row, found, row.len(), found.len());
    }
}

proof fn lemma_volume_grows(truth: Seq<Vec<bool>>, results: Seq<Vec<u64>>, upto: nat, all: nat)
    requires
        upto <= all,
    ensures
        volume(truth, results, upto).0 <= volume(truth, results, all).0,
        volume(truth, results, upto).1 <= volume(truth, results, all).1,
    decreases all,
{
    if upto < all {
        lemma_volume_grows(truth, results, upto, (all - 1) as nat);
    }
}

/// Recall and precision are at most one.
pub proof fn law_counts_are_shares(truth: Seq<Vec<bool>>, results: Seq<Vec<u64>>, upto: nat)
    ensures
        counts(truth, results, upto).1 <= counts(truth, results, upto).0,
        counts(truth, results, upto).3 <= counts(truth, results, upto).2,
{
    lemma_count_bounds(truth, results, upto);
}

fn count_items(row: &Vec<bool>, candidates: &Vec<u64>) -> (counted: (usize, usize))
    ensures
        counted.0 == similar(row@, row@.len()),
        counted.1 == similar_found(row@, candidates@, row@.len()),
{
    let mut keys: HashSet<u64> = HashSet::new();
    let mut position: usize = 0;
    while position < candidates.len()
        invariant
            position <= candidates@.len(),
            forall|key: u64| #[trigger]
                keys@.contains(key) <==> candidates@.take(position as int).contains(key),
        decreases candidates@.len() - position,
    {
        let ghost before = candidates@.take(position as int);
        let ghost after = candidates@.take(position + 1);
        let ghost earlier = keys@;
        keys.insert(candidates[position]);
        proof {
            assert(after =~= before.push(candidates@[position as int]));
            assert forall|key: u64| #[trigger] keys@.contains(key) <==> after.contains(key) by {
                if before.contains(key) {
                    let i = choose|i: int| 0 <= i < before.len() && before[i] == key;
                    assert(after[i] == key);
                }
                if after.contains(key) && key != candidates@[position as int] {
                    let i = choose|i: int| 0 <= i < after.len() && after[i] == key;
                    assert(before[i] == key);
                }
                assert(after[position as int] == candidates@[position as int]);
            }
        }
        position = position + 1;
    }
    assert(candidates@.take(position as int) =~= candidates@);
    let mut matches: usize = 0;
    let mut found: usize = 0;
    let mut index: usize = 0;
    while index < row.len()
        invariant
            index <= row@.len(),
            forall|key: u64| #[trigger] keys@.contains(key) <==> candidates@.contains(key),
            matches == similar(row@, index as nat),
            found == similar_found(row@, candidates@, index as nat),
            found <= matches <= index,
        decreases row@.len() - index,
    {
        if row[index] {
            matches = matches + 1;
            if keys.contains(&(index as u64)) {
                found = found + 1;
            }
        }
        index = index + 1;
    }
    (matches, found)
}

fn count_candidates(row: &Vec<bool>, candidates: &Vec<u64>) -> (count: usize)
    ensures
        count == candidates_similar(row@, candidates@, candidates@.len()),
{
    let mut count: usize = 0;
    let mut index: usize = 0;
    while index < candidates.len()
        invariant
            index <= candidates@.len(),
            count == candidates_similar(row@, candidates@, index as nat),
            count <= index,
        decreases candidates@.len() - index,
    {
        let key: u64 = candidates[index];
        if key < row.len() as u64 {
            if row[key as usize] {
                count = count + 1;
            }
        }
        index = index + 1;
    }
    count
}

/// Compare the candidates of queries with the ground truth: for each query
/// which items are similar to it. Keys are positions of items. Where there are
/// more queries or more results, the additional ones do not count.
pub fn candidate_correctness(truth: &Vec<Vec<bool>>, results: &Vec<Vec<u64>>) -> (counted:
    CandidateCounts)
    requires
        ({
            let shorter = if truth@.len() < results@.len() {
                truth@.len()
            } else {
                results@.len()
            };
            volume(truth@, results@, shorter).0 <= usize::MAX && volume(
                truth@,
                results@,
                shorter,
            ).1 <= usize::MAX
        }),
    ensures
        ({
            let shorter = if truth@.len() < results@.len() {
                truth@.len()
            } else {
                results@.len()
            };
            counts(truth@, results@, shorter) == (
                counted.exact_matches as nat,
                counted.found_exact as nat,
                counted.total_candidates as nat,
                counted.exact_candidates as nat,
            )
        }),
{
    let queries: usize = if truth.len() < results.len() {
        truth.len()
    } else {
        results.len()
    };
    let mut counted = CandidateCounts {
        exact_matches: 0,
        found_exact: 0,
        total_candidates: 0,
        exact_candidates: 0,
    };
    let mut query: usize = 0;
    while query < queries
        invariant
            query <= queries,
            queries <= truth@.len(),
            queries <= results@.len(),
            volume(truth@, results@, queries as nat).0 <= usize::MAX,
            volume(truth@, results@, queries as nat).1 <= usize::MAX,
            counts(truth@, results@, query as nat) == (
                counted.exact_matches as nat,
                counted.found_exact as nat,
                counted.total_candidates as nat,
                counted.exact_candidates as nat,
            ),
        decreases queries - query,
    {
        proof {
            lemma_count_bounds(truth@, results@, (query + 1) as nat);
            lemma_volume_grows(truth@, results@, (query + 1) as nat, queries as nat);
        }
        let (matches, found) = count_items(&truth[query], &results[query]);
        let exact = count_candidates(&truth[query], &results[query]);
        counted = CandidateCounts {
            exact_matches: counted.exact_matches + matches,
            found_exact: counted.found_exact + found,
            total_candidates: counted.total_candidates + results[query].len(),
            exact_candidates: counted.exact_candidates + exact,
        };
        query = query + 1;
    }
    counted
}

/// Of a row of the truth, the items that are similar are counted.
pub proof fn law_similar_items_are_counted(row: Seq<bool>, upto: nat)
    ensures
        Set::<int>::new(|i: int| 0 <= i < upto && row[i]).finite(),
        similar(row, upto) == Set::<int>::new(
            |i: int| 0 <= i < upto && row[i],
        ).len(),
    decreases upto,
{
    let all = Set::<int>::new(|i: int| 0 <= i < upto && row[i]);
    if upto == 0 {
        assert(all =~= Set::<int>::empty());
    } else {
        let shorter = (upto - 1) as nat;
        law_similar_items_are_counted(row, shorter);
        let front = Set::<int>::new(|i: int| 0 <= i < shorter && row[i]);
        if all.contains(upto - 1) {
            assert(all =~= front.insert(upto - 1));
        } else {
            assert(all =~= front);
        }
    }
}

/// Of a row of the truth, the items that are similar and among the candidates are counted.
pub proof fn law_similar_items_that_were_found_are_counted(row: Seq<bool>, candidates: Seq<u64>, upto: nat)
    ensures
        Set::<int>::new(|i: int| 0 <= i < upto && row[i] && candidates.contains(i as u64)).finite(),
        similar_found(row, candidates, upto) == Set::<int>::new(
            |i: int| 0 <= i < upto && row[i] && candidates.contains(i as u64),
        ).len(),
    decreases upto,
{
    let all = Set::<int>::new(|i: int| 0 <= i < upto && row[i] && candidates.contains(i as u64));
    if upto == 0 {
        assert(all =~= Set::<int>::empty());
    } else {
        let shorter = (upto - 1) as nat;
        law_similar_items_that_were_found_are_counted(row, candidates, shorter);
        let front = Set::<int>::new(|i: int| 0 <= i < shorter && row[i] && candidates.contains(i as u64));
        if all.contains(upto - 1) {
            assert(all =~= front.insert(upto - 1));
        } else {
            assert(all =~= front);
        }
    }
}

/// The candidates that are similar by a row of the truth are counted.
pub proof fn law_candidates_that_are_similar_are_counted(row: Seq<bool>, candidates: Seq<u64>, upto: nat)
    ensures
        Set::<int>::new(|i: int| 0 <= i < upto && candidates[i] < row.len() && row[candidates[i] as int]).finite(),
        candidates_similar(row, candidates, upto) == Set::<int>::new(
            |i: int| 0 <= i < upto && candidates[i] < row.len() && row[candidates[i] as int],
        ).len(),
    decreases upto,
{
    let all = Set::<int>::new(|i: int| 0 <= i < upto && candidates[i] < row.len() && row[candidates[i] as int]);
    if upto == 0 {
        assert(all =~= Set::<int>::empty());
    } else {
        let shorter = (upto - 1) as nat;
        law_candidates_that_are_similar_are_counted(row, candidates, shorter);
        let front = Set::<int>::new(|i: int| 0 <= i < shorter && candidates[i] < row.len() && row[candidates[i] as int]);
        if all.contains(upto - 1) {
            assert(all =~= front.insert(upto - 1));
        } else {
            assert(all =~= front);
        }
    }
}

/// Every query adds what its own row and candidates count.
pub proof fn law_every_query_is_counted(truth: Seq<Vec<bool>>, results: Seq<Vec<u64>>, upto: nat)
    ensures
        counts(truth, results, 0) == (0nat, 0nat, 0nat, 0nat),
        ({
            let row = truth[upto as int]@;
            let found = results[upto as int]@;
            let before = counts(truth, results, upto);
            let after = counts(truth, results, upto + 1);
            &&& after.0 == before.0 + Set::<int>::new(|i: int| 0 <= i < row.len() && row[i]).len()
            &&& after.1 == before.1 + Set::<int>::new(
                |i: int| 0 <= i < row.len() && (row[i] && found.contains(i as u64)),
            ).len()
            &&& after.2 == before.2 + found.len()
            &&& after.3 == before.3 + Set::<int>::new(
                |i: int| 0 <= i < found.len() && (found[i] < row.len() && row[found[i] as int]),
            ).len()
        }),
{
    let row = truth[upto as int]@;
    let found = results[upto as int]@;
    law_similar_items_are_counted(row, row.len());
    law_similar_items_that_were_found_are_counted(row, found, row.len());
    law_candidates_that_are_similar_are_counted(row, found, found.len());
    assert(Set::<int>::new(|i: int| 0 <= i < row.len() && (row[i] && found.contains(i as u64)))
        =~= Set::<int>::new(|i: int| 0 <= i < row.len() && row[i] && found.contains(i as u64)));
    assert(Set::<int>::new(
        |i: int| 0 <= i < found.len() && (found[i] < row.len() && row[found[i] as int]),
    ) =~= Set::<int>::new(
        |i: int| 0 <= i < found.len() && found[i] < row.len() && row[found[i] as int],
    ));
}

/// A share is the part over the whole; of nothing, nothing is all of it.
pub proof fn law_shares(part: u64, whole: u64)
    ensures
        whole > 0 ==> share(part, whole) == (Ratio { numerator: part, denominator: whole }),
        share(0, 0) == (Ratio { numerator: 1, denominator: 1 }),
        part > 0 ==> share(part, 0) == (Ratio { numerator: 0, denominator: 1 }),
{
}

} // verus!
