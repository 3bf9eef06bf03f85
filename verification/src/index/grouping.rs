//! Connected components of key pairs.

use std::collections::HashMap;
use vstd::prelude::*;

use crate::index::union_find::UnionFind;
use crate::order;

verus! {

broadcast use vstd::std_specs::hash::group_hash_axioms;

/// What a group holds.
#[verifier::ext_equal]
pub struct Group {
    pub representative: u64,
    pub members: Seq<u64>,
}

/// One connected component of duplicate candidates.
#[derive(Debug, Clone, PartialEq, Eq)]
pub struct DuplicateGroup {
    representative: u64,
    members: Vec<u64>,
}

impl View for DuplicateGroup {
    type V = Group;

    closed spec fn view(&self) -> Group {
        Group { representative: self.representative, members: self.members@ }
    }
}

impl DuplicateGroup {
    /// Return the selected representative key for this group.
    pub fn representative(&self) -> (representative: u64)
        ensures
            representative == self@.representative,
    {
        self.representative
    }

    /// Borrow sorted member keys.
    pub fn members(&self) -> (members: &[u64])
        ensures
            members@ == self@.members,
    {
        self.members.as_slice()
    }

    /// Return the number of members in the group.
    pub fn len(&self) -> (len: usize)
        ensures
            len == self@.members.len(),
    {
        self.members.len()
    }

    /// Return whether the group has no members.
    pub fn is_empty(&self) -> (empty: bool)
        ensures
            empty == (self@.members.len() == 0),
    {
        self.members.len() == 0
    }
}

/// Errors produced by representative-selection hooks.
#[derive(Debug, Clone, Copy, PartialEq, Eq, Structural)]
pub enum GroupError {
    /// The representative callback selected a key outside its component.
    RepresentativeNotMember { representative: u64 },
}

/// An edge joins both keys, in one direction or the other.
pub open spec fn adjacent(edges: Seq<(u64, u64)>, left: u64, right: u64) -> bool {
    edges.contains((left, right)) || edges.contains((right, left))
}

/// Every step of the path goes along an edge.
pub open spec fn is_path(edges: Seq<(u64, u64)>, path: Seq<u64>) -> bool {
    &&& path.len() > 0
    &&& forall|i: int|
        0 <= i < path.len() - 1 ==> adjacent(edges, #[trigger] path[i], path[i + 1])
}

/// A path leads from one key to the other.
pub open spec fn linked(edges: Seq<(u64, u64)>, left: u64, right: u64) -> bool {
    exists|path: Seq<u64>| #[trigger]
        is_path(edges, path) && path.first() == left && path.last() == right
}

/// The keys that occur in an edge.
pub open spec fn nodes_of(edges: Seq<(u64, u64)>) -> Set<u64> {
    Set::new(
        |key: u64|
            exists|i: int|
                0 <= i < edges.len() && ((#[trigger] edges[i]).0 == key || edges[i].1 == key),
    )
}

/// The sequence lists one connected component of `nodes`, in ascending order.
pub open spec fn is_component(
    nodes: Set<u64>,
    edges: Seq<(u64, u64)>,
    members: Seq<u64>,
) -> bool {
    &&& members.len() > 0
    &&& order::increasing(members)
    &&& forall|key: u64|
        #![trigger members.contains(key)]
        #![trigger linked(edges, members[0], key)]
        members.contains(key) <==> nodes.contains(key) && linked(edges, members[0], key)
}

/// The list holds exactly the components of at least `minimum` nodes, ordered
/// by their smallest members.
pub open spec fn is_grouping(
    nodes: Set<u64>,
    edges: Seq<(u64, u64)>,
    minimum: nat,
    components: Seq<Seq<u64>>,
) -> bool {
    &&& forall|members: Seq<u64>|
        components.contains(members) <==> (#[trigger] is_component(nodes, edges, members)
            && members.len() >= minimum)
    &&& forall|i: int, j: int|
        0 <= i < j < components.len() ==> (#[trigger] components[i])[0] < (
        #[trigger] components[j])[0]
}

/// The least group size that a request for `min_size` stands for.
pub open spec fn minimum_of(min_size: usize) -> nat {
    if min_size == 0 {
        1
    } else {
        min_size as nat
    }
}

/// The member lists of groups.
pub open spec fn members_of(groups: Seq<DuplicateGroup>) -> Seq<Seq<u64>> {
    groups.map_values(|group: DuplicateGroup| group@.members)
}

/// Lists of keys as sequences.
pub open spec fn lists_of(lists: Seq<Vec<u64>>) -> Seq<Seq<u64>> {
    lists.map_values(|list: Vec<u64>| list@)
}

/// The groups are those of `is_grouping`, and each is represented by its
/// smallest member.
pub open spec fn are_default_groups(
    nodes: Set<u64>,
    edges: Seq<(u64, u64)>,
    minimum: nat,
    groups: Seq<DuplicateGroup>,
) -> bool {
    &&& is_grouping(nodes, edges, minimum, members_of(groups))
    &&& forall|i: int|
        0 <= i < groups.len() ==> (#[trigger] groups[i])@.representative == groups[i]@.members[0]
}

/// `choice` may come out of the selector for the component `members`.
pub open spec fn may_select<F: Fn(&[u64]) -> u64>(
    selector: F,
    members: Seq<u64>,
    choice: u64,
) -> bool {
    exists|slice: &[u64]| slice@ == members && #[trigger] selector.ensures((slice,), choice)
}

/// The selector can be asked about the members, in ascending order, of every
/// component of at least `minimum` nodes.
pub open spec fn takes_components<F: Fn(&[u64]) -> u64>(
    selector: F,
    nodes: Set<u64>,
    edges: Seq<(u64, u64)>,
    minimum: nat,
) -> bool {
    forall|slice: &[u64]|
        is_component(nodes, edges, slice@) && slice@.len() >= minimum
            ==> #[trigger] selector.requires((slice,))
}

/// The groups are the components, ordered by the members that the selector
/// chose to represent them.
pub open spec fn are_selected_groups<F: Fn(&[u64]) -> u64>(
    components: Seq<Seq<u64>>,
    selector: F,
    groups: Seq<DuplicateGroup>,
) -> bool {
    &&& groups.len() == components.len()
    &&& forall|i: int, j: int|
        0 <= i < j < groups.len() ==> (#[trigger] groups[i])@.representative < (
        #[trigger] groups[j])@.representative
    &&& forall|i: int|
        0 <= i < groups.len() ==> components.contains((#[trigger] groups[i])@.members)
            && groups[i]@.members.contains(groups[i]@.representative) && may_select(
            selector,
            groups[i]@.members,
            groups[i]@.representative,
        )
    &&& forall|i: int|
        0 <= i < components.len() ==> members_of(groups).contains(#[trigger] components[i])
}

/// The selector may choose one of the members.
pub open spec fn selects_member<F: Fn(&[u64]) -> u64>(selector: F, members: Seq<u64>) -> bool {
    exists|choice: u64|
        members.contains(choice) && #[trigger] may_select(selector, members, choice)
}

/// The selector chose `representative` for the first component to which it
/// gave no member of its own.
pub open spec fn is_misselection<F: Fn(&[u64]) -> u64>(
    components: Seq<Seq<u64>>,
    selector: F,
    representative: u64,
) -> bool {
    exists|i: int|
        0 <= i < components.len() && !(#[trigger] components[i]).contains(representative)
            && may_select(selector, components[i], representative) && forall|j: int|
            0 <= j < i ==> selects_member(selector, #[trigger] components[j])
}

pub proof fn lemma_linked_reflexive(edges: Seq<(u64, u64)>, key: u64)
    ensures
        linked(edges, key, key),
{
    assert(is_path(edges, seq![key]));
}

pub proof fn lemma_linked_symmetric(edges: Seq<(u64, u64)>, left: u64, right: u64)
    requires
        linked(edges, left, right),
    ensures
        linked(edges, right, left),
{
    let path = choose|path: Seq<u64>| #[trigger]
        is_path(edges, path) && path.first() == left && path.last() == right;
    let back = path.reverse();
    assert forall|i: int| 0 <= i < back.len() - 1 implies adjacent(
        edges,
        #[trigger] back[i],
        back[i + 1],
    ) by {
        let k = path.len() - 2 - i;
        assert(adjacent(edges, path[k], path[k + 1]));
    }
    assert(is_path(edges, back));
}

pub proof fn lemma_linked_transitive(edges: Seq<(u64, u64)>, a: u64, b: u64, c: u64)
    requires
        linked(edges, a, b),
        linked(edges, b, c),
    ensures
        linked(edges, a, c),
{
    let front = choose|path: Seq<u64>| #[trigger]
        is_path(edges, path) && path.first() == a && path.last() == b;
    let back = choose|path: Seq<u64>| #[trigger]
        is_path(edges, path) && path.first() == b && path.last() == c;
    let path = front + back.skip(1);
    assert forall|i: int| 0 <= i < path.len() - 1 implies adjacent(
        edges,
        #[trigger] path[i],
        path[i + 1],
    ) by {
        if i < front.len() - 1 {
            assert(adjacent(edges, front[i], front[i + 1]));
        } else {
            let k = i - (front.len() - 1);
            assert(path[i] == back[k]);
            assert(path[i + 1] == back[k + 1]);
            assert(adjacent(edges, back[k], back[k + 1]));
        }
    }
    assert(is_path(edges, path));
    if back.len() == 1 {
        assert(path =~= front);
    } else {
        assert(path.last() == back.last());
    }
}

/// More edges link at least as much.
pub proof fn lemma_linked_monotone(
    edges: Seq<(u64, u64)>,
    more: Seq<(u64, u64)>,
    left: u64,
    right: u64,
)
    requires
        linked(edges, left, right),
        forall|a: u64, b: u64| #[trigger] adjacent(edges, a, b) ==> adjacent(more, a, b),
    ensures
        linked(more, left, right),
{
    let path = choose|path: Seq<u64>| #[trigger]
        is_path(edges, path) && path.first() == left && path.last() == right;
    assert forall|i: int| 0 <= i < path.len() - 1 implies adjacent(
        more,
        #[trigger] path[i],
        path[i + 1],
    ) by {
        assert(adjacent(edges, path[i], path[i + 1]));
    }
    assert(is_path(more, path));
}

pub proof fn lemma_edge_links(edges: Seq<(u64, u64)>, left: u64, right: u64)
    requires
        adjacent(edges, left, right),
    ensures
        linked(edges, left, right),
{
    assert(is_path(edges, seq![left, right]));
}

/// Which keys are grouped does not depend on the order, the direction or the
/// repetition of the edges, nor on edges from a key to itself.
pub proof fn law_only_adjacency_matters(
    left: Seq<(u64, u64)>,
    right: Seq<(u64, u64)>,
    a: u64,
    b: u64,
)
    requires
        forall|x: u64, y: u64|
            x != y ==> (#[trigger] adjacent(left, x, y) <==> #[trigger] adjacent(right, x, y)),
    ensures
        linked(left, a, b) == linked(right, a, b),
{
    if linked(left, a, b) {
        let path = choose|path: Seq<u64>| #[trigger]
            is_path(left, path) && path.first() == a && path.last() == b;
        lemma_path_without_self_edges(left, right, path);
    }
    if linked(right, a, b) {
        let path = choose|path: Seq<u64>| #[trigger]
            is_path(right, path) && path.first() == a && path.last() == b;
        lemma_path_without_self_edges(right, left, path);
    }
}

proof fn lemma_path_without_self_edges(
    edges: Seq<(u64, u64)>,
    others: Seq<(u64, u64)>,
    path: Seq<u64>,
)
    requires
        is_path(edges, path),
        forall|x: u64, y: u64| x != y && #[trigger] adjacent(edges, x, y) ==> adjacent(others, x, y),
    ensures
        linked(others, path.first(), path.last()),
    decreases path.len(),
{
    if path.len() == 1 {
        lemma_linked_reflexive(others, path.first());
    } else {
        let front = path.drop_last();
        assert forall|i: int| 0 <= i < front.len() - 1 implies adjacent(
            edges,
            #[trigger] front[i],
            front[i + 1],
        ) by {
            assert(adjacent(edges, path[i], path[i + 1]));
        }
        lemma_path_without_self_edges(edges, others, front);
        let k = path.len() - 2;
        assert(adjacent(edges, path[k], path[k + 1]));
        if front.last() != path.last() {
            lemma_edge_links(others, front.last(), path.last());
            lemma_linked_transitive(others, path.first(), front.last(), path.last());
        }
    }
}

/// A grouping has only one arrangement.
pub proof fn law_grouping_is_unique(
    nodes: Set<u64>,
    edges: Seq<(u64, u64)>,
    minimum: nat,
    left: Seq<Seq<u64>>,
    right: Seq<Seq<u64>>,
)
    requires
        is_grouping(nodes, edges, minimum, left),
        is_grouping(nodes, edges, minimum, right),
    ensures
        left == right,
{
    lemma_grouping_prefix(nodes, edges, minimum, left, right, left.len());
    lemma_grouping_prefix(nodes, edges, minimum, right, left, right.len());
    assert(left =~= right);
}

proof fn lemma_grouping_prefix(
    nodes: Set<u64>,
    edges: Seq<(u64, u64)>,
    minimum: nat,
    left: Seq<Seq<u64>>,
    right: Seq<Seq<u64>>,
    upto: nat,
)
    requires
        is_grouping(nodes, edges, minimum, left),
        is_grouping(nodes, edges, minimum, right),
        upto <= left.len(),
    ensures
        upto <= right.len(),
        forall|i: int| 0 <= i < upto ==> left[i] == #[trigger] right[i],
    decreases upto,
{
    if upto > 0 {
        let k = upto - 1;
        lemma_grouping_prefix(nodes, edges, minimum, left, right, k as nat);
        assert(left.contains(left[k]));
        assert(is_component(nodes, edges, left[k]));
        assert(right.contains(left[k]));
        let j = choose|j: int| 0 <= j < right.len() && right[j] == left[k];
        if j < k {
            assert(left[j] == right[j]);
            assert(left[j][0] < left[k][0]);
        }
        assert(right.contains(right[k]));
        assert(is_component(nodes, edges, right[k]));
        assert(left.contains(right[k]));
        let i = choose|i: int| 0 <= i < left.len() && left[i] == right[k];
        if i < k {
            assert(left[i] == right[i]);
            assert(right[i][0] < right[k][0]);
        }
        if j > k {
            assert(right[k][0] < right[j][0]);
            if i > k {
                assert(left[k][0] < left[i][0]);
            }
        }
        assert(left[k] == right[k]);
    }
}

/// No key belongs to two components.
pub proof fn lemma_components_disjoint(
    nodes: Set<u64>,
    edges: Seq<(u64, u64)>,
    left: Seq<u64>,
    right: Seq<u64>,
    key: u64,
)
    requires
        is_component(nodes, edges, left),
        is_component(nodes, edges, right),
        left.contains(key),
        right.contains(key),
    ensures
        left == right,
{
    assert forall|k: u64| left.to_set().contains(k) == right.to_set().contains(k) by {
        assert(linked(edges, left[0], key));
        assert(linked(edges, right[0], key));
        lemma_linked_symmetric(edges, left[0], key);
        lemma_linked_symmetric(edges, right[0], key);
        if left.contains(k) {
            assert(linked(edges, left[0], k));
            lemma_linked_transitive(edges, key, left[0], k);
            lemma_linked_transitive(edges, right[0], key, k);
        }
        if right.contains(k) {
            assert(linked(edges, right[0], k));
            lemma_linked_transitive(edges, key, right[0], k);
            lemma_linked_transitive(edges, left[0], key, k);
        }
    }
    assert(left.to_set() =~= right.to_set());
    order::law_increasing_is_unique(left, right);
}

/// The first `upto` keys whose label is `label`, in their order.
spec fn pick(keys: Seq<u64>, labels: Seq<int>, upto: int, label: int) -> Seq<u64>
    decreases upto,
{
    if upto <= 0 {
        Seq::empty()
    } else if labels[upto - 1] == label {
        pick(keys, labels, upto - 1, label).push(keys[upto - 1])
    } else {
        pick(keys, labels, upto - 1, label)
    }
}

proof fn lemma_pick(keys: Seq<u64>, labels: Seq<int>, upto: int, label: int)
    requires
        order::increasing(keys),
        labels.len() == keys.len(),
        0 <= upto <= keys.len(),
    ensures
        order::increasing(pick(keys, labels, upto, label)),
        forall|key: u64|
            pick(keys, labels, upto, label).contains(key) <==> exists|i: int|
                0 <= i < upto && #[trigger] keys[i] == key && labels[i] == label,
        upto > 0 && pick(keys, labels, upto, label).len() > 0 ==> pick(
            keys,
            labels,
            upto,
            label,
        ).last() <= keys[upto - 1],
    decreases upto,
{
    if upto > 0 {
        lemma_pick(keys, labels, upto - 1, label);
        let before = pick(keys, labels, upto - 1, label);
        let after = pick(keys, labels, upto, label);
        assert forall|j: int| 0 <= j < before.len() implies before[j] < keys[upto - 1] by {
            assert(before.contains(before[j]));
        }
        assert forall|key: u64|
            after.contains(key) <==> exists|i: int|
                0 <= i < upto && #[trigger] keys[i] == key && labels[i] == label by {
            if after.contains(key) {
                let j = choose|j: int| 0 <= j < after.len() && after[j] == key;
                if j < before.len() {
                    assert(before[j] == key);
                    assert(before.contains(key));
                } else {
                    assert(keys[upto - 1] == key);
                }
            }
            if exists|i: int| 0 <= i < upto && #[trigger] keys[i] == key && labels[i] == label {
                let i = choose|i: int|
                    0 <= i < upto && #[trigger] keys[i] == key && labels[i] == label;
                if i < upto - 1 {
                    assert(before.contains(key));
                    let j = choose|j: int| 0 <= j < before.len() && before[j] == key;
                    assert(after[j] == key);
                } else {
                    assert(after[after.len() - 1] == key);
                }
            }
        }
    } else {
        assert forall|key: u64| !pick(keys, labels, upto, label).contains(key) by {}
    }
}

/// The classes that the forest makes of the keys are the components of the
/// graph.
pub open spec fn matches_graph(
    forest: UnionFind,
    keys: Seq<u64>,
    ids: Seq<usize>,
    edges: Seq<(u64, u64)>,
) -> bool {
    &&& keys.len() == ids.len()
    &&& forall|i: int| 0 <= i < ids.len() ==> (#[trigger] ids[i]) < forest.size()
    &&& forall|i: int, j: int|
        0 <= i < ids.len() && 0 <= j < ids.len() ==> (forest.joined(
            (#[trigger] ids[i]) as int,
            (#[trigger] ids[j]) as int,
        ) <==> linked(edges, keys[i], keys[j]))
}

/// Move one list out, leaving an empty one.
fn take_list(lists: &mut Vec<Vec<u64>>, index: usize) -> (taken: Vec<u64>)
    requires
        index < old(lists)@.len(),
    ensures
        taken@ == old(lists)@[index as int]@,
        final(lists)@.len() == old(lists)@.len(),
        forall|i: int|
            0 <= i < old(lists)@.len() && i != index ==> (#[trigger] final(lists)@[i]) == old(lists)@[i],
{
    let mut taken: Vec<u64> = Vec::new();
    std::mem::swap(&mut lists[index], &mut taken);
    taken
}

/// The lists of all classes, by root, and the roots whose lists are not empty,
/// in the order of their first keys.
spec fn distributed(
    keys: Seq<u64>,
    labels: Seq<int>,
    upto: int,
    by_root: Seq<Vec<u64>>,
    roots: Seq<usize>,
) -> bool {
    &&& forall|r: int|
        0 <= r < by_root.len() ==> (#[trigger] by_root[r])@ == pick(keys, labels, upto, r)
    &&& forall|t: int| 0 <= t < roots.len() ==> (#[trigger] roots[t]) < by_root.len()
    &&& forall|t: int| 0 <= t < roots.len() ==> by_root[(#[trigger] roots[t]) as int]@.len() > 0
    &&& forall|r: int|
        0 <= r < by_root.len() && (#[trigger] by_root[r])@.len() > 0 ==> roots.contains(
            r as usize,
        )
    &&& forall|s: int, t: int|
        0 <= s < t < roots.len() ==> by_root[(#[trigger] roots[s]) as int]@[0] < by_root[(
        #[trigger] roots[t]) as int]@[0]
    &&& forall|t: int|
        0 <= t < roots.len() ==> keys.take(upto).contains(
            by_root[(#[trigger] roots[t]) as int]@[0],
        )
}

proof fn lemma_distribute_step(
    keys: Seq<u64>,
    labels: Seq<int>,
    upto: int,
    before: Seq<Vec<u64>>,
    roots_before: Seq<usize>,
    after: Seq<Vec<u64>>,
    roots: Seq<usize>,
    root: usize,
)
    requires
        order::increasing(keys),
        0 <= upto < keys.len(),
        labels.len() == keys.len(),
        distributed(keys, labels, upto, before, roots_before),
        before.len() <= usize::MAX,
        root < before.len(),
        labels[upto] == root,
        after.len() == before.len(),
        after[root as int]@ == before[root as int]@.push(keys[upto]),
        forall|r: int| 0 <= r < before.len() && r != root ==> (#[trigger] after[r]) == before[r],
        roots == if before[root as int]@.len() == 0 {
            roots_before.push(root)
        } else {
            roots_before
        },
    ensures
        distributed(keys, labels, upto + 1, after, roots),
{
    let fresh = before[root as int]@.len() == 0;
    assert forall|r: int| 0 <= r < after.len() implies (#[trigger] after[r])@ == pick(
        keys,
        labels,
        upto + 1,
        r,
    ) by {
        assert(before[r]@ == pick(keys, labels, upto, r));
    }
    assert forall|t: int| 0 <= t < roots.len() implies after[(
    #[trigger] roots[t]) as int]@.len() > 0 by {
        if t < roots_before.len() {
            assert(roots_before[t] == roots[t]);
        }
    }
    assert forall|r: int|
        0 <= r < after.len() && (#[trigger] after[r])@.len() > 0 implies roots.contains(
        r as usize,
    ) by {
        if r == root && fresh {
            assert(roots[roots.len() - 1] == r as usize);
        } else {
            assert(before[r]@.len() > 0);
            let t = choose|t: int| 0 <= t < roots_before.len() && roots_before[t] == r as usize;
            assert(roots[t] == r as usize);
        }
    }
    assert forall|t: int| 0 <= t < roots_before.len() implies after[(
    #[trigger] roots_before[t]) as int]@[0] == before[roots_before[t] as int]@[0]
        && before[roots_before[t] as int]@[0] < keys[upto] && keys.take(upto + 1).contains(
        before[roots_before[t] as int]@[0],
    ) by {
        let x = before[roots_before[t] as int]@[0];
        assert(before[roots_before[t] as int]@.len() > 0);
        assert(keys.take(upto).contains(x));
        let m = choose|m: int| 0 <= m < upto && keys.take(upto)[m] == x;
        assert(keys[m] == x);
        assert(keys.take(upto + 1)[m] == x);
    }
    assert forall|s: int, t: int| 0 <= s < t < roots.len() implies after[(
    #[trigger] roots[s]) as int]@[0] < after[(#[trigger] roots[t]) as int]@[0] by {
        assert(roots[s] == roots_before[s]);
        if t < roots_before.len() {
            assert(roots[t] == roots_before[t]);
        }
    }
    assert forall|t: int| 0 <= t < roots.len() implies keys.take(upto + 1).contains(
        after[(#[trigger] roots[t]) as int]@[0],
    ) by {
        if t < roots_before.len() {
            assert(roots[t] == roots_before[t]);
        } else {
            assert(keys.take(upto + 1)[upto] == keys[upto]);
        }
    }
}

/// Put every key on the list of its root.
fn distribute(
    forest: &mut UnionFind,
    keys: &Vec<u64>,
    ids: &Vec<usize>,
    Ghost(labels): Ghost<Seq<int>>,
) -> (result: (Vec<Vec<u64>>, Vec<usize>))
    requires
        old(forest).wf(),
        order::increasing(keys@),
        keys@.len() == ids@.len(),
        forall|i: int| 0 <= i < ids@.len() ==> (#[trigger] ids@[i]) < old(forest).size(),
        labels == Seq::new(keys@.len(), |i: int| old(forest).root(ids@[i] as int)),
    ensures
        result.0@.len() == old(forest).size(),
        distributed(keys@, labels, keys@.len() as int, result.0@, result.1@),
{
    let size: usize = forest.len();
    let mut by_root: Vec<Vec<u64>> = Vec::new();
    while by_root.len() < size
        invariant
            by_root@.len() <= size,
            forall|r: int|
                0 <= r < by_root@.len() ==> (#[trigger] by_root@[r])@ == Seq::<u64>::empty(),
        decreases size - by_root@.len(),
    {
        by_root.push(Vec::new());
    }
    let mut roots: Vec<usize> = Vec::new();
    let mut done: usize = 0;
    while done < keys.len()
        invariant
            done <= keys@.len(),
            keys@.len() == ids@.len(),
            order::increasing(keys@),
            labels.len() == keys@.len(),
            forest.wf(),
            forest.size() == size,
            forall|i: int| 0 <= i < ids@.len() ==> (#[trigger] ids@[i]) < size,
            forall|i: int|
                0 <= i < ids@.len() ==> forest.root((#[trigger] ids@[i]) as int) == labels[i],
            by_root@.len() == size,
            distributed(keys@, labels, done as int, by_root@, roots@),
        decreases keys@.len() - done,
    {
        let ghost before = by_root@;
        let ghost roots_before = roots@;
        assert(ids@[done as int] < size);
        let root: usize = forest.find(ids[done]);
        let fresh = by_root[root].len() == 0;
        by_root[root].push(keys[done]);
        if fresh {
            roots.push(root);
        }
        proof {
            lemma_distribute_step(
                keys@,
                labels,
                done as int,
                before,
                roots_before,
                by_root@,
                roots@,
                root,
            );
        }
        done = done + 1;
    }
    (by_root, roots)
}

/// The chosen lists are those of at least `minimum` keys among the lists of
/// the first `upto` roots, in the order of the roots.
spec fn gathered(
    full: Seq<Seq<u64>>,
    roots: Seq<usize>,
    upto: int,
    minimum: nat,
    chosen: Seq<Seq<u64>>,
) -> bool {
    &&& forall|i: int| 0 <= i < chosen.len() ==> from_root(full, roots, upto, #[trigger] chosen[i])
    &&& forall|i: int| 0 <= i < chosen.len() ==> (#[trigger] chosen[i]).len() >= minimum
    &&& forall|i: int, j: int|
        0 <= i < j < chosen.len() ==> (#[trigger] chosen[i])[0] < (#[trigger] chosen[j])[0]
    &&& forall|t: int|
        0 <= t < upto && full[(#[trigger] roots[t]) as int].len() >= minimum ==> chosen.contains(
            full[roots[t] as int],
        )
}

/// The list belongs to one of the first `upto` roots.
spec fn from_root(full: Seq<Seq<u64>>, roots: Seq<usize>, upto: int, list: Seq<u64>) -> bool {
    exists|t: int| 0 <= t < upto && list == full[(#[trigger] roots[t]) as int]
}

proof fn lemma_gather_step(
    full: Seq<Seq<u64>>,
    roots: Seq<usize>,
    upto: int,
    minimum: nat,
    before: Seq<Seq<u64>>,
    after: Seq<Seq<u64>>,
)
    requires
        0 <= upto < roots.len(),
        forall|s: int, t: int|
            0 <= s < t < roots.len() ==> full[(#[trigger] roots[s]) as int][0] < full[(
            #[trigger] roots[t]) as int][0],
        gathered(full, roots, upto, minimum, before),
        after == if full[roots[upto] as int].len() >= minimum {
            before.push(full[roots[upto] as int])
        } else {
            before
        },
    ensures
        gathered(full, roots, upto + 1, minimum, after),
{
    let last = full[roots[upto] as int];
    assert forall|i: int| 0 <= i < after.len() implies from_root(
        full,
        roots,
        upto + 1,
        #[trigger] after[i],
    ) by {
        if i < before.len() {
            assert(after[i] == before[i]);
            assert(from_root(full, roots, upto, before[i]));
            let t = choose|t: int| 0 <= t < upto && before[i] == full[(#[trigger] roots[t]) as int];
            assert(after[i] == full[roots[t] as int]);
        } else {
            assert(after[i] == full[roots[upto] as int]);
        }
    }
    assert forall|i: int, j: int| 0 <= i < j < after.len() implies (#[trigger] after[i])[0] < (
    #[trigger] after[j])[0] by {
        assert(after[i] == before[i]);
        if j < before.len() {
            assert(after[j] == before[j]);
        } else {
            assert(from_root(full, roots, upto, before[i]));
            let t = choose|t: int| 0 <= t < upto && before[i] == full[(#[trigger] roots[t]) as int];
            assert(full[roots[t] as int][0] < full[roots[upto] as int][0]);
        }
    }
    assert forall|t: int|
        0 <= t < upto + 1 && full[(#[trigger] roots[t]) as int].len()
            >= minimum implies after.contains(full[roots[t] as int]) by {
        if t < upto {
            let i = choose|i: int| 0 <= i < before.len() && before[i] == full[roots[t] as int];
            assert(after[i] == full[roots[t] as int]);
        } else {
            assert(after[after.len() - 1] == last);
        }
    }
}

/// Keep the lists of at least `minimum` keys.
fn gather(by_root: Vec<Vec<u64>>, roots: &Vec<usize>, minimum: usize) -> (chosen: Vec<Vec<u64>>)
    requires
        forall|t: int| 0 <= t < roots@.len() ==> (#[trigger] roots@[t]) < by_root@.len(),
        forall|s: int, t: int|
            0 <= s < t < roots@.len() ==> by_root@[(#[trigger] roots@[s]) as int]@[0] < by_root@[(
            #[trigger] roots@[t]) as int]@[0],
    ensures
        gathered(
            lists_of(by_root@),
            roots@,
            roots@.len() as int,
            minimum as nat,
            lists_of(chosen@),
        ),
{
    let ghost full = lists_of(by_root@);
    let mut pool = by_root;
    let mut chosen: Vec<Vec<u64>> = Vec::new();
    let mut position: usize = 0;
    proof {
        assert forall|s: int, t: int| 0 <= s < t < roots@.len() implies full[(
        #[trigger] roots@[s]) as int][0] < full[(#[trigger] roots@[t]) as int][0] by {
            assert(by_root@[roots@[s] as int]@[0] < by_root@[roots@[t] as int]@[0]);
        }
        assert(lists_of(chosen@) =~= Seq::empty());
    }
    while position < roots.len()
        invariant
            position <= roots@.len(),
            full.len() == pool@.len(),
            forall|t: int| 0 <= t < roots@.len() ==> (#[trigger] roots@[t]) < full.len(),
            forall|s: int, t: int|
                0 <= s < t < roots@.len() ==> full[(#[trigger] roots@[s]) as int][0] < full[(
                #[trigger] roots@[t]) as int][0],
            forall|t: int|
                position <= t < roots@.len() ==> pool@[(#[trigger] roots@[t]) as int]@
                    == full[roots@[t] as int],
            gathered(full, roots@, position as int, minimum as nat, lists_of(chosen@)),
        decreases roots@.len() - position,
    {
        let ghost before = lists_of(chosen@);
        let ghost pool_before = pool@;
        let root: usize = roots[position];
        assert(roots@[position as int] < full.len());
        let list = take_list(&mut pool, root);
        assert(list@ == full[root as int]);
        proof {
            assert forall|t: int| position < t < roots@.len() implies pool@[(
            #[trigger] roots@[t]) as int]@ == full[roots@[t] as int] by {
                assert(full[roots@[position as int] as int][0] < full[roots@[t] as int][0]);
                assert(roots@[t] != root);
                assert(pool_before[roots@[t] as int]@ == full[roots@[t] as int]);
            }
        }
        if list.len() >= minimum {
            chosen.push(list);
            assert(lists_of(chosen@) =~= before.push(full[root as int]));
        }
        proof {
            lemma_gather_step(
                full,
                roots@,
                position as int,
                minimum as nat,
                before,
                lists_of(chosen@),
            );
        }
        position = position + 1;
    }
    chosen
}

/// List the classes of at least `min_size` keys.
pub(crate) fn collect_components(
    forest: &mut UnionFind,
    keys: &Vec<u64>,
    ids: &Vec<usize>,
    min_size: usize,
    Ghost(edges): Ghost<Seq<(u64, u64)>>,
) -> (components: Vec<Vec<u64>>)
    requires
        old(forest).wf(),
        order::increasing(keys@),
        matches_graph(*old(forest), keys@, ids@, edges),
    ensures
        is_grouping(
            keys@.to_set(),
            edges,
            minimum_of(min_size),
            lists_of(components@),
        ),
{
    let minimum: usize = if min_size == 0 {
        1
    } else {
        min_size
    };
    let ghost first = *forest;
    let ghost labels = Seq::new(keys@.len(), |i: int| first.root(ids@[i] as int));
    let (by_root, roots) = distribute(forest, keys, ids, Ghost(labels));
    let ghost full = by_root@;
    assert(by_root.len() == full.len());
    let components = gather(by_root, &roots, minimum);
    proof {
        lemma_gathered_is_grouping(
            first,
            keys@,
            ids@,
            edges,
            labels,
            full,
            roots@,
            minimum as nat,
            lists_of(components@),
        );
    }
    components
}

proof fn lemma_gathered_is_grouping(
    forest: UnionFind,
    keys: Seq<u64>,
    ids: Seq<usize>,
    edges: Seq<(u64, u64)>,
    labels: Seq<int>,
    by_root: Seq<Vec<u64>>,
    roots: Seq<usize>,
    minimum: nat,
    chosen: Seq<Seq<u64>>,
)
    requires
        forest.wf(),
        order::increasing(keys),
        matches_graph(forest, keys, ids, edges),
        labels == Seq::new(keys.len(), |i: int| forest.root(ids[i] as int)),
        by_root.len() == forest.size(),
        by_root.len() <= usize::MAX,
        distributed(keys, labels, keys.len() as int, by_root, roots),
        gathered(lists_of(by_root), roots, roots.len() as int, minimum, chosen),
    ensures
        is_grouping(keys.to_set(), edges, minimum, chosen),
{
    let nodes = keys.to_set();
    let n = keys.len() as int;
    let full = lists_of(by_root);
    assert forall|members: Seq<u64>|
        chosen.contains(members) <==> (#[trigger] is_component(nodes, edges, members)
            && members.len() >= minimum) by {
        if chosen.contains(members) {
            let i = choose|i: int| 0 <= i < chosen.len() && chosen[i] == members;
            assert(from_root(full, roots, roots.len() as int, chosen[i]));
            let t = choose|t: int|
                0 <= t < roots.len() && chosen[i] == full[(#[trigger] roots[t]) as int];
            let r = roots[t] as int;
            assert(by_root[r]@ == members);
            assert(by_root[roots[t] as int]@.len() > 0);
            lemma_class_is_component(forest, keys, ids, edges, labels, r);
        }
        if is_component(nodes, edges, members) && members.len() >= minimum {
            lemma_linked_reflexive(edges, members[0]);
            assert(members.contains(members[0]));
            assert(nodes.contains(members[0]));
            let k = choose|k: int| 0 <= k < keys.len() && keys[k] == members[0];
            let r = labels[k];
            assert(ids[k] < forest.size());
            forest.lemma_root_in_range(ids[k] as int);
            lemma_pick(keys, labels, n, r);
            assert(pick(keys, labels, n, r).contains(members[0]));
            assert(by_root[r]@.len() > 0);
            lemma_class_is_component(forest, keys, ids, edges, labels, r);
            lemma_components_disjoint(
                nodes,
                edges,
                members,
                pick(keys, labels, n, r),
                members[0],
            );
            let t = choose|t: int| 0 <= t < roots.len() && roots[t] == r as usize;
            assert(full[roots[t] as int] == members);
        }
    }
}

proof fn lemma_class_is_component(
    forest: UnionFind,
    keys: Seq<u64>,
    ids: Seq<usize>,
    edges: Seq<(u64, u64)>,
    labels: Seq<int>,
    label: int,
)
    requires
        order::increasing(keys),
        matches_graph(forest, keys, ids, edges),
        labels == Seq::new(keys.len(), |i: int| forest.root(ids[i] as int)),
        pick(keys, labels, keys.len() as int, label).len() > 0,
    ensures
        is_component(keys.to_set(), edges, pick(keys, labels, keys.len() as int, label)),
{
    let n = keys.len() as int;
    let members = pick(keys, labels, n, label);
    lemma_pick(keys, labels, n, label);
    assert(members.contains(members[0]));
    let k = choose|k: int| 0 <= k < n && #[trigger] keys[k] == members[0] && labels[k] == label;
    assert forall|key: u64|
        members.contains(key) <==> keys.to_set().contains(key) && #[trigger] linked(
            edges,
            members[0],
            key,
        ) by {
        if members.contains(key) {
            let i = choose|i: int| 0 <= i < n && #[trigger] keys[i] == key && labels[i] == label;
            assert(forest.joined(ids[k] as int, ids[i] as int));
            assert(keys.contains(key));
        }
        if keys.to_set().contains(key) && linked(edges, members[0], key) {
            let i = choose|i: int| 0 <= i < n && keys[i] == key;
            assert(forest.joined(ids[k] as int, ids[i] as int));
            assert(labels[i] == label);
        }
    }
}

/// Nodes of the forest and keys correspond, and classes are the components of
/// the edges read so far.
spec fn stream_ok(
    forest: UnionFind,
    keys: Seq<u64>,
    ids: Map<u64, usize>,
    edges: Seq<(u64, u64)>,
) -> bool {
    &&& forest.wf()
    &&& forest.size() == keys.len()
    &&& keys.len() <= usize::MAX
    &&& forall|i: int|
        0 <= i < keys.len() ==> ids.contains_key(#[trigger] keys[i]) && ids[keys[i]] == i
    &&& forall|key: u64| #[trigger]
        ids.contains_key(key) ==> ids[key] < keys.len() && keys[ids[key] as int] == key
    &&& forall|i: int|
        0 <= i < edges.len() ==> ids.contains_key((#[trigger] edges[i]).0) && ids.contains_key(
            edges[i].1,
        ) && forest.joined(ids[edges[i].0] as int, ids[edges[i].1] as int)
    &&& forall|i: int, j: int|
        0 <= i < keys.len() && 0 <= j < keys.len() && #[trigger] forest.joined(i, j) ==> linked(
            edges,
            keys[i],
            keys[j],
        )
}

proof fn lemma_linked_joined(
    forest: UnionFind,
    keys: Seq<u64>,
    ids: Map<u64, usize>,
    edges: Seq<(u64, u64)>,
    path: Seq<u64>,
)
    requires
        stream_ok(forest, keys, ids, edges),
        is_path(edges, path),
        ids.contains_key(path.first()),
    ensures
        ids.contains_key(path.last()),
        forest.joined(ids[path.first()] as int, ids[path.last()] as int),
    decreases path.len(),
{
    if path.len() > 1 {
        let front = path.drop_last();
        assert forall|i: int| 0 <= i < front.len() - 1 implies adjacent(
            edges,
            #[trigger] front[i],
            front[i + 1],
        ) by {
            assert(adjacent(edges, path[i], path[i + 1]));
        }
        lemma_linked_joined(forest, keys, ids, edges, front);
        let k = path.len() - 2;
        assert(adjacent(edges, path[k], path[k + 1]));
        if edges.contains((path[k], path[k + 1])) {
            let i = choose|i: int| 0 <= i < edges.len() && edges[i] == (path[k], path[k + 1]);
            assert(ids.contains_key(edges[i].1));
        } else {
            let i = choose|i: int| 0 <= i < edges.len() && edges[i] == (path[k + 1], path[k]);
            assert(ids.contains_key(edges[i].0));
        }
    }
}

/// The node of a key, made if it has none yet.
fn intern_key(
    key: u64,
    ids: &mut HashMap<u64, usize>,
    keys: &mut Vec<u64>,
    forest: &mut UnionFind,
    Ghost(edges): Ghost<Seq<(u64, u64)>>,
) -> (id: usize)
    requires
        stream_ok(*old(forest), old(keys)@, old(ids)@, edges),
    ensures
        stream_ok(*final(forest), final(keys)@, final(ids)@, edges),
        final(ids)@.contains_key(key),
        final(ids)@[key] == id,
        forall|other: u64| #[trigger]
            old(ids)@.contains_key(other) ==> final(ids)@.contains_key(other) && final(ids)@[other]
                == old(ids)@[other],
        forall|other: u64| #[trigger]
            final(ids)@.contains_key(other) ==> other == key || old(ids)@.contains_key(other),
{
    match ids.get(&key) {
        Some(id) => {
            return *id;
        },
        None => {},
    }
    let ghost ids_before = ids@;
    let ghost keys_before = keys@;
    let ghost forest_before = *forest;
    let id: usize = keys.len();
    keys.push(key);
    forest.push();
    let _ = ids.insert(key, id);
    proof {
        assert(keys.len() == keys@.len());
        assert forall|i: int| 0 <= i < keys@.len() implies ids@.contains_key(#[trigger] keys@[i])
            && ids@[keys@[i]] == i by {
            if i < keys_before.len() {
                assert(ids_before.contains_key(keys_before[i]));
            }
        }
        assert forall|other: u64| #[trigger] ids@.contains_key(other) implies ids@[other]
            < keys@.len() && keys@[ids@[other] as int] == other by {
            if other != key {
                assert(ids_before.contains_key(other));
            }
        }
        assert forall|i: int| 0 <= i < edges.len() implies ids@.contains_key(
            (#[trigger] edges[i]).0,
        ) && ids@.contains_key(edges[i].1) && forest.joined(
            ids@[edges[i].0] as int,
            ids@[edges[i].1] as int,
        ) by {
            let a = ids_before[edges[i].0] as int;
            let b = ids_before[edges[i].1] as int;
            assert(ids_before.contains_key(edges[i].0));
            assert(ids_before.contains_key(edges[i].1));
            assert(forest_before.joined(a, b));
            assert(forest.joined(a, b));
        }
        assert forall|i: int, j: int|
            0 <= i < keys@.len() && 0 <= j < keys@.len() && #[trigger] forest.joined(
                i,
                j,
            ) implies linked(edges, keys@[i], keys@[j]) by {
            if i < id && j < id {
                assert(forest_before.joined(i, j));
            } else {
                if i != j {
                    if i < id {
                        assert(!forest.joined(i, id as int));
                    } else {
                        assert(!forest.joined(id as int, j));
                    }
                }
                lemma_linked_reflexive(edges, keys@[i]);
            }
        }
    }
    id
}

/// Join the ends of every edge.
fn union_stream(pairs: &[(u64, u64)]) -> (result: (UnionFind, Vec<u64>, HashMap<u64, usize>))
    ensures
        stream_ok(result.0, result.1@, result.2@, pairs@),
        forall|key: u64|
            result.2@.contains_key(key) <==> #[trigger] nodes_of(pairs@).contains(key),
{
    let mut ids: HashMap<u64, usize> = HashMap::new();
    let mut keys: Vec<u64> = Vec::new();
    let mut forest = UnionFind::with_len(0);
    let mut index: usize = 0;
    while index < pairs.len()
        invariant
            index <= pairs@.len(),
            stream_ok(forest, keys@, ids@, pairs@.take(index as int)),
            forall|key: u64|
                ids@.contains_key(key) <==> #[trigger] nodes_of(
                    pairs@.take(index as int),
                ).contains(key),
        decreases pairs@.len() - index,
    {
        let (left, right) = pairs[index];
        let ghost edges = pairs@.take(index as int);
        let ghost ids_before = ids@;
        let left_id: usize = intern_key(left, &mut ids, &mut keys, &mut forest, Ghost(edges));
        let right_id: usize = intern_key(right, &mut ids, &mut keys, &mut forest, Ghost(edges));
        let ghost before = forest;
        forest.union(left_id, right_id);
        proof {
            let more = pairs@.take(index + 1);
            assert(more =~= edges.push((left, right)));
            lemma_stream_grows(before, forest, keys@, ids@, edges, left, right);
            assert forall|key: u64|
                ids@.contains_key(key) <==> #[trigger] nodes_of(more).contains(key) by {
                if ids@.contains_key(key) {
                    if key == left || key == right {
                        assert(more[index as int] == (left, right));
                    } else {
                        assert(ids_before.contains_key(key));
                        assert(nodes_of(edges).contains(key));
                        let i = choose|i: int|
                            0 <= i < edges.len() && ((#[trigger] edges[i]).0 == key || edges[i].1
                                == key);
                        assert(more[i] == edges[i]);
                    }
                }
                if nodes_of(more).contains(key) {
                    let i = choose|i: int|
                        0 <= i < more.len() && ((#[trigger] more[i]).0 == key || more[i].1 == key);
                    if i < index {
                        assert(edges[i] == more[i]);
                        assert(nodes_of(edges).contains(key));
                    }
                }
            }
        }
        index = index + 1;
    }
    assert(pairs@.take(index as int) =~= pairs@);
    (forest, keys, ids)
}

proof fn lemma_stream_grows(
    before: UnionFind,
    after: UnionFind,
    keys: Seq<u64>,
    ids: Map<u64, usize>,
    edges: Seq<(u64, u64)>,
    left: u64,
    right: u64,
)
    requires
        stream_ok(before, keys, ids, edges),
        ids.contains_key(left),
        ids.contains_key(right),
        after.wf(),
        after.size() == before.size(),
        forall|i: int, j: int|
            0 <= i < before.size() && 0 <= j < before.size() ==> (#[trigger] after.joined(i, j)
                <==> before.joined(i, j) || (before.joined(i, ids[left] as int) && before.joined(
                j,
                ids[right] as int,
            )) || (before.joined(i, ids[right] as int) && before.joined(j, ids[left] as int))),
    ensures
        stream_ok(after, keys, ids, edges.push((left, right))),
{
    let more = edges.push((left, right));
    let l = ids[left] as int;
    let r = ids[right] as int;
    lemma_push_adjacent(edges, (left, right));
    assert forall|i: int| 0 <= i < more.len() implies ids.contains_key((#[trigger] more[i]).0)
        && ids.contains_key(more[i].1) && after.joined(
        ids[more[i].0] as int,
        ids[more[i].1] as int,
    ) by {
        if i < edges.len() {
            assert(more[i] == edges[i]);
            assert(before.joined(ids[edges[i].0] as int, ids[edges[i].1] as int));
        } else {
            assert(before.joined(l, l) && before.joined(r, r));
            assert(after.joined(l, r));
        }
    }
    lemma_edge_links(more, left, right);
    lemma_linked_symmetric(more, left, right);
    assert forall|i: int, j: int|
        0 <= i < keys.len() && 0 <= j < keys.len() && #[trigger] after.joined(
            i,
            j,
        ) implies linked(more, keys[i], keys[j]) by {
        if before.joined(i, j) {
            lemma_linked_monotone(edges, more, keys[i], keys[j]);
        } else if before.joined(i, l) && before.joined(j, r) {
            lemma_linked_monotone(edges, more, keys[i], keys[l]);
            lemma_linked_monotone(edges, more, keys[j], keys[r]);
            lemma_linked_symmetric(more, keys[j], keys[r]);
            lemma_linked_transitive(more, keys[i], left, right);
            lemma_linked_transitive(more, keys[i], right, keys[j]);
        } else {
            lemma_linked_monotone(edges, more, keys[i], keys[r]);
            lemma_linked_monotone(edges, more, keys[j], keys[l]);
            lemma_linked_symmetric(more, keys[j], keys[l]);
            lemma_linked_transitive(more, keys[i], right, left);
            lemma_linked_transitive(more, keys[i], left, keys[j]);
        }
    }
}

pub(crate) proof fn lemma_push_adjacent(edges: Seq<(u64, u64)>, edge: (u64, u64))
    ensures
        forall|a: u64, b: u64| #[trigger]
            adjacent(edges, a, b) ==> adjacent(edges.push(edge), a, b),
        adjacent(edges.push(edge), edge.0, edge.1),
{
    let more = edges.push(edge);
    assert(more[edges.len() as int] == edge);
    assert forall|a: u64, b: u64| #[trigger] adjacent(edges, a, b) implies adjacent(more, a, b) by {
        if edges.contains((a, b)) {
            let i = choose|i: int| 0 <= i < edges.len() && edges[i] == (a, b);
            assert(more[i] == (a, b));
        } else {
            let i = choose|i: int| 0 <= i < edges.len() && edges[i] == (b, a);
            assert(more[i] == (b, a));
        }
    }
}

/// The components of a stream of key pairs.
fn stream_components(pairs: &[(u64, u64)], min_size: usize) -> (components: Vec<Vec<u64>>)
    ensures
        is_grouping(
            nodes_of(pairs@),
            pairs@,
            minimum_of(min_size),
            lists_of(components@),
        ),
{
    let (mut forest, keys, ids) = union_stream(pairs);
    let ghost listed = keys@;
    let ordered = order::sorted_unique(keys);
    let mut nodes: Vec<usize> = Vec::new();
    let mut index: usize = 0;
    while index < ordered.len()
        invariant
            index <= ordered@.len(),
            nodes@.len() == index,
            stream_ok(forest, listed, ids@, pairs@),
            ordered@.to_set() == listed.to_set(),
            forall|i: int| 0 <= i < index ==> ids@.contains_key(#[trigger] ordered@[i]),
            forall|i: int| 0 <= i < index ==> (#[trigger] nodes@[i]) == ids@[ordered@[i]],
        decreases ordered@.len() - index,
    {
        proof {
            assert(ordered@.to_set().contains(ordered@[index as int]));
            assert(listed.to_set().contains(ordered@[index as int]));
            let k = choose|k: int| 0 <= k < listed.len() && listed[k] == ordered@[index as int];
            assert(ids@.contains_key(listed[k]));
        }
        let key: u64 = ordered[index];
        let id: usize = match ids.get(&key) {
            Some(id) => *id,
            None => 0,
        };
        assert(ids@.contains_key(key));
        assert(id == ids@[key]);
        nodes.push(id);
        index = index + 1;
    }
    proof {
        assert forall|key: u64| ordered@.to_set().contains(key) == nodes_of(pairs@).contains(
            key,
        ) by {
            assert(ids@.contains_key(key) <==> nodes_of(pairs@).contains(key));
            if listed.to_set().contains(key) {
                let k = choose|k: int| 0 <= k < listed.len() && listed[k] == key;
                assert(ids@.contains_key(listed[k]));
            }
            if ids@.contains_key(key) {
                assert(listed[ids@[key] as int] == key);
                assert(listed.to_set().contains(key));
            }
        }
        assert(ordered@.to_set() =~= nodes_of(pairs@));
        assert forall|i: int, j: int|
            0 <= i < nodes@.len() && 0 <= j < nodes@.len() implies (forest.joined(
            (#[trigger] nodes@[i]) as int,
            (#[trigger] nodes@[j]) as int,
        ) <==> linked(pairs@, ordered@[i], ordered@[j])) by {
            let a = ordered@[i];
            let b = ordered@[j];
            assert(nodes@[i] == ids@[a] && nodes@[j] == ids@[b]);
            if linked(pairs@, a, b) {
                let path = choose|path: Seq<u64>| #[trigger]
                    is_path(pairs@, path) && path.first() == a && path.last() == b;
                lemma_linked_joined(forest, listed, ids@, pairs@, path);
            }
        }
    }
    collect_components(&mut forest, &ordered, &nodes, min_size, Ghost(pairs@))
}

/// Let the smallest member of each component represent it.
pub(crate) fn default_groups(components: Vec<Vec<u64>>) -> (groups: Vec<DuplicateGroup>)
    requires
        forall|i: int| 0 <= i < components@.len() ==> (#[trigger] components@[i])@.len() > 0,
    ensures
        members_of(groups@) == lists_of(components@),
        forall|i: int|
            0 <= i < groups@.len() ==> (#[trigger] groups@[i])@.representative
                == groups@[i]@.members[0],
{
    let ghost lists = lists_of(components@);
    let mut pool = components;
    let mut groups: Vec<DuplicateGroup> = Vec::new();
    let mut index: usize = 0;
    while index < pool.len()
        invariant
            index <= pool@.len(),
            lists.len() == pool@.len(),
            forall|i: int| index <= i < pool@.len() ==> (#[trigger] pool@[i])@ == lists[i],
            forall|i: int| 0 <= i < lists.len() ==> (#[trigger] lists[i]).len() > 0,
            groups@.len() == index,
            forall|i: int|
                0 <= i < index ==> (#[trigger] groups@[i])@ == (Group {
                    representative: lists[i][0],
                    members: lists[i],
                }),
        decreases pool@.len() - index,
    {
        assert(lists[index as int].len() > 0);
        let members = take_list(&mut pool, index);
        let representative: u64 = members[0];
        groups.push(DuplicateGroup { representative, members });
        index = index + 1;
    }
    assert(members_of(groups@) =~= lists);
    groups
}

/// Whether a sorted list holds a key.
fn holds(members: &Vec<u64>, key: u64) -> (held: bool)
    requires
        order::increasing(members@),
    ensures
        held == members@.contains(key),
{
    let mut low: usize = 0;
    let mut high: usize = members.len();
    while low < high
        invariant
            low <= high <= members@.len(),
            order::increasing(members@),
            forall|i: int| 0 <= i < low ==> (#[trigger] members@[i]) < key,
            forall|i: int| high <= i < members@.len() ==> (#[trigger] members@[i]) > key,
        decreases high - low,
    {
        let middle: usize = low + (high - low) / 2;
        if members[middle] == key {
            assert(members@[middle as int] == key);
            return true;
        }
        if members[middle] < key {
            low = middle + 1;
        } else {
            high = middle;
        }
    }
    false
}

/// Every choice is a member that the selector may choose, and `owners` says
/// which component it was chosen for.
spec fn chosen_ok<F: Fn(&[u64]) -> u64>(
    lists: Seq<Seq<u64>>,
    selector: F,
    choices: Seq<u64>,
    owners: Map<u64, usize>,
) -> bool {
    forall|i: int|
        0 <= i < choices.len() ==> lists[i].contains(#[trigger] choices[i]) && may_select(
            selector,
            lists[i],
            choices[i],
        ) && owners.contains_key(choices[i]) && owners[choices[i]] == i
}

/// Ask the selector about every component.
fn choose_representatives<F: Fn(&[u64]) -> u64>(
    components: &Vec<Vec<u64>>,
    selector: &F,
    Ghost(nodes): Ghost<Set<u64>>,
    Ghost(edges): Ghost<Seq<(u64, u64)>>,
    Ghost(minimum): Ghost<nat>,
) -> (result: Result<(Vec<u64>, HashMap<u64, usize>), GroupError>)
    requires
        is_grouping(nodes, edges, minimum, lists_of(components@)),
        takes_components(*selector, nodes, edges, minimum),
    ensures
        match result {
            Ok((choices, owners)) => choices@.len() == components@.len() && chosen_ok(
                lists_of(components@),
                *selector,
                choices@,
                owners@,
            ),
            Err(GroupError::RepresentativeNotMember { representative }) => is_misselection(
                lists_of(components@),
                *selector,
                representative,
            ),
        },
{
    let ghost lists = lists_of(components@);
    let mut choices: Vec<u64> = Vec::new();
    let mut owners: HashMap<u64, usize> = HashMap::new();
    let mut index: usize = 0;
    while index < components.len()
        invariant
            index <= components@.len(),
            is_grouping(nodes, edges, minimum, lists),
            lists == lists_of(components@),
            takes_components(*selector, nodes, edges, minimum),
            choices@.len() == index,
            chosen_ok(lists, *selector, choices@, owners@),
        decreases components@.len() - index,
    {
        let ghost listed = lists[index as int];
        proof {
            assert(lists.contains(listed));
            assert(is_component(nodes, edges, listed));
            assert(components@[index as int]@ == listed);
        }
        let choice: u64 = selector(components[index].as_slice());
        assert(may_select(*selector, listed, choice));
        if !holds(&components[index], choice) {
            proof {
                assert(!lists[index as int].contains(choice));
                assert forall|j: int| 0 <= j < index implies selects_member(
                    *selector,
                    #[trigger] lists[j],
                ) by {
                    assert(may_select(*selector, lists[j], choices@[j]));
                }
            }
            return Err(GroupError::RepresentativeNotMember { representative: choice });
        }
        proof {
            assert forall|i: int| 0 <= i < index implies #[trigger] choices@[i] != choice by {
                if choices@[i] == choice {
                    assert(lists.contains(lists[i]));
                    assert(is_component(nodes, edges, lists[i]));
                    lemma_components_disjoint(nodes, edges, lists[i], listed, choice);
                    assert(lists[i][0] < lists[index as int][0]);
                }
            }
        }
        choices.push(choice);
        let _ = owners.insert(choice, index);
        index = index + 1;
    }
    Ok((choices, owners))
}

/// The group is the component for which `choice` was chosen.
spec fn represents(lists: Seq<Seq<u64>>, chosen: Seq<u64>, choice: u64, group: Group) -> bool {
    &&& group.representative == choice
    &&& exists|k: int|
        0 <= k < lists.len() && chosen[k] == choice && group.members == #[trigger] lists[k]
}

/// Order the components by their representatives.
fn arrange<F: Fn(&[u64]) -> u64>(
    components: Vec<Vec<u64>>,
    choices: Vec<u64>,
    owners: &HashMap<u64, usize>,
    selector: &F,
) -> (groups: Vec<DuplicateGroup>)
    requires
        choices@.len() == components@.len(),
        chosen_ok(lists_of(components@), *selector, choices@, owners@),
    ensures
        are_selected_groups(lists_of(components@), *selector, groups@),
{
    let ghost lists = lists_of(components@);
    let ghost chosen = choices@;
    let mut pool = components;
    let ordered = order::sorted_unique(choices);
    let mut groups: Vec<DuplicateGroup> = Vec::new();
    let mut position: usize = 0;
    proof {
        lemma_distinct_len(ordered@, chosen, owners@);
    }
    while position < ordered.len()
        invariant
            position <= ordered@.len(),
            order::increasing(ordered@),
            ordered@.to_set() == chosen.to_set(),
            chosen.len() == lists.len(),
            pool@.len() == lists.len(),
            chosen_ok(lists, *selector, chosen, owners@),
            forall|i: int|
                0 <= i < chosen.len() && (position > 0 ==> (#[trigger] chosen[i])
                    > ordered@[position - 1]) ==> pool@[i]@ == lists[i],
            groups@.len() == position,
            forall|q: int|
                0 <= q < position ==> represents(
                    lists,
                    chosen,
                    ordered@[q],
                    (#[trigger] groups@[q])@,
                ),
        decreases ordered@.len() - position,
    {
        let choice: u64 = ordered[position];
        proof {
            assert(ordered@.to_set().contains(choice));
            assert(chosen.to_set().contains(choice));
        }
        let ghost index = choose|k: int| 0 <= k < chosen.len() && chosen[k] == choice;
        assert(owners@.contains_key(chosen[index]));
        let owner: usize = match owners.get(&choice) {
            Some(owner) => *owner,
            None => 0,
        };
        assert(owner == index);
        assert(chosen[owner as int] == choice);
        let ghost held = pool@;
        let ghost groups_before = groups@;
        assert(pool@[owner as int]@ == lists[owner as int]) by {
            assert(chosen[owner as int] == choice);
            if position > 0 {
                assert(ordered@[position - 1] < ordered@[position as int]);
            }
        }
        let members = take_list(&mut pool, owner);
        groups.push(DuplicateGroup { representative: choice, members });
        proof {
            assert forall|i: int|
                0 <= i < chosen.len() && (#[trigger] chosen[i])
                    > ordered@[position as int] implies pool@[i]@ == lists[i] by {
                assert(i != owner);
                if position > 0 {
                    assert(ordered@[position - 1] < ordered@[position as int]);
                }
                assert(held[i]@ == lists[i]);
            }
            assert forall|q: int| 0 <= q < position + 1 implies represents(
                lists,
                chosen,
                ordered@[q],
                (#[trigger] groups@[q])@,
            ) by {
                if q < position {
                    assert(groups@[q] == groups_before[q]);
                } else {
                    assert(groups@[q]@.members == lists[owner as int]);
                }
            }
        }
        position = position + 1;
    }
    proof {
        assert forall|i: int| 0 <= i < groups@.len() implies lists.contains(
            (#[trigger] groups@[i])@.members,
        ) && groups@[i]@.members.contains(groups@[i]@.representative) && may_select(
            *selector,
            groups@[i]@.members,
            groups@[i]@.representative,
        ) && groups@[i]@.representative == ordered@[i] by {
            assert(represents(lists, chosen, ordered@[i], groups@[i]@));
            let k = choose|k: int|
                0 <= k < lists.len() && chosen[k] == ordered@[i] && groups@[i]@.members
                    == #[trigger] lists[k];
            assert(lists[k].contains(chosen[k]));
        }
        assert forall|i: int, j: int| 0 <= i < j < groups@.len() implies (
        #[trigger] groups@[i])@.representative < (#[trigger] groups@[j])@.representative by {
            assert(groups@[i]@.representative == ordered@[i]);
            assert(groups@[j]@.representative == ordered@[j]);
        }
        assert forall|i: int| 0 <= i < lists.len() implies members_of(groups@).contains(
            #[trigger] lists[i],
        ) by {
            assert(chosen.to_set().contains(chosen[i]));
            assert(ordered@.to_set().contains(chosen[i]));
            let q = choose|q: int| 0 <= q < ordered@.len() && ordered@[q] == chosen[i];
            assert(groups@[q]@.representative == ordered@[q]);
            assert(represents(lists, chosen, ordered@[q], groups@[q]@));
            let k = choose|k: int|
                0 <= k < lists.len() && chosen[k] == ordered@[q] && groups@[q]@.members
                    == #[trigger] lists[k];
            assert(owners@[chosen[i]] == i);
            assert(owners@[chosen[k]] == k);
            assert(members_of(groups@)[q] == lists[i]);
        }
    }
    groups
}

/// Let the selector choose who represents each component.
pub(crate) fn selected_groups<F: Fn(&[u64]) -> u64>(
    components: Vec<Vec<u64>>,
    selector: F,
    Ghost(nodes): Ghost<Set<u64>>,
    Ghost(edges): Ghost<Seq<(u64, u64)>>,
    Ghost(minimum): Ghost<nat>,
) -> (result: Result<Vec<DuplicateGroup>, GroupError>)
    requires
        is_grouping(nodes, edges, minimum, lists_of(components@)),
        takes_components(selector, nodes, edges, minimum),
    ensures
        match result {
            Ok(groups) => are_selected_groups(lists_of(components@), selector, groups@),
            Err(GroupError::RepresentativeNotMember { representative }) => is_misselection(
                lists_of(components@),
                selector,
                representative,
            ),
        },
{
    match choose_representatives(
        &components,
        &selector,
        Ghost(nodes),
        Ghost(edges),
        Ghost(minimum),
    ) {
        Ok((choices, owners)) => Ok(arrange(components, choices, &owners, &selector)),
        Err(error) => Err(error),
    }
}

/// Choices that name their positions are distinct, so sorting loses none.
proof fn lemma_distinct_len(ordered: Seq<u64>, chosen: Seq<u64>, owners: Map<u64, usize>)
    requires
        order::increasing(ordered),
        ordered.to_set() == chosen.to_set(),
        forall|i: int|
            0 <= i < chosen.len() ==> owners.contains_key(#[trigger] chosen[i])
                && owners[chosen[i]] == i,
    ensures
        ordered.len() == chosen.len(),
{
    assert(ordered.no_duplicates());
    assert(chosen.no_duplicates()) by {
        assert forall|i: int, j: int|
            0 <= i < chosen.len() && 0 <= j < chosen.len() && i != j implies chosen[i]
            != chosen[j] by {
            assert(owners[chosen[i]] == i);
            assert(owners[chosen[j]] == j);
        }
    }
    ordered.unique_seq_to_set();
    chosen.unique_seq_to_set();
}

/// Group a stream of key pairs into connected components.
///
/// Self edges introduce their key without changing connectivity; duplicate
/// edges are harmless. Components of fewer than `min_size` keys are left out.
pub fn group_pairs(pairs: &[(u64, u64)], min_size: usize) -> (groups: Vec<DuplicateGroup>)
    ensures
        are_default_groups(nodes_of(pairs@), pairs@, minimum_of(min_size), groups@),
{
    let components = stream_components(pairs, min_size);
    proof {
        let lists = lists_of(components@);
        assert forall|i: int| 0 <= i < components@.len() implies (
        #[trigger] components@[i])@.len() > 0 by {
            assert(lists.contains(lists[i]));
            assert(is_component(nodes_of(pairs@), pairs@, lists[i]));
        }
    }
    default_groups(components)
}

/// Group a stream of key pairs and choose a representative from each component.
///
/// The selector receives sorted group members. A key outside those members is
/// rejected.
pub fn group_pairs_with_representative<F: Fn(&[u64]) -> u64>(
    pairs: &[(u64, u64)],
    min_size: usize,
    representative: F,
) -> (result: Result<Vec<DuplicateGroup>, GroupError>)
    requires
        takes_components(representative, nodes_of(pairs@), pairs@, minimum_of(min_size)),
    ensures
        exists|components: Seq<Seq<u64>>| #[trigger]
            is_grouping(nodes_of(pairs@), pairs@, minimum_of(min_size), components) && match result {
                Ok(groups) => are_selected_groups(components, representative, groups@),
                Err(GroupError::RepresentativeNotMember { representative: chosen }) =>
                    is_misselection(components, representative, chosen),
            },
{
    let components = stream_components(pairs, min_size);
    let ghost lists = lists_of(components@);
    let result = selected_groups(
        components,
        representative,
        Ghost(nodes_of(pairs@)),
        Ghost(pairs@),
        Ghost(minimum_of(min_size)),
    );
    assert(is_grouping(nodes_of(pairs@), pairs@, minimum_of(min_size), lists));
    result
}

/// The nodes are the keys of the pairs.
pub proof fn law_nodes_are_the_keys_of_pairs(edges: Seq<(u64, u64)>, key: u64)
    ensures
        forall|k: int|
            0 <= k < edges.len() ==> nodes_of(edges).contains((#[trigger] edges[k]).0)
                && nodes_of(edges).contains(edges[k].1),
        nodes_of(edges).contains(key) ==> exists|k: int|
            0 <= k < edges.len() && ((#[trigger] edges[k]).0 == key || edges[k].1 == key),
{
}

/// The lists are those that were asked for: each has at least `min_size` keys, and every
/// component of at least `min_size` keys is among them.
pub proof fn law_lists_are_as_large_as_asked(
    nodes: Set<u64>,
    edges: Seq<(u64, u64)>,
    min_size: usize,
    components: Seq<Seq<u64>>,
)
    requires
        is_grouping(nodes, edges, minimum_of(min_size), components),
    ensures
        forall|i: int|
            0 <= i < components.len() ==> (#[trigger] components[i]).len() >= min_size
                && components[i].len() >= 1 && is_component(nodes, edges, components[i]),
        forall|members: Seq<u64>| #[trigger]
            is_component(nodes, edges, members) && members.len() >= min_size
                ==> components.contains(members),
{
    assert forall|i: int| 0 <= i < components.len() implies (#[trigger] components[i]).len()
        >= min_size && components[i].len() >= 1 && is_component(nodes, edges, components[i]) by {
        assert(components.contains(components[i]));
        assert(is_component(nodes, edges, components[i]));
    }
}

/// The groups are those that were asked for: each has at least `min_size` members, every
/// component of at least `min_size` keys is among them, and the smallest member
/// represents its group.
pub proof fn law_groups_are_as_large_as_asked(
    nodes: Set<u64>,
    edges: Seq<(u64, u64)>,
    min_size: usize,
    groups: Seq<DuplicateGroup>,
)
    requires
        are_default_groups(nodes, edges, minimum_of(min_size), groups),
    ensures
        forall|i: int|
            0 <= i < groups.len() ==> (#[trigger] groups[i])@.members.len() >= min_size
                && groups[i]@.members.len() >= 1 && is_component(nodes, edges, groups[i]@.members),
        forall|i: int, j: int|
            0 <= i < groups.len() && 0 <= j < groups[i]@.members.len() ==> (
            #[trigger] groups[i])@.representative <= #[trigger] groups[i]@.members[j],
        forall|i: int|
            0 <= i < groups.len() ==> groups[i]@.members.contains(
                (#[trigger] groups[i])@.representative,
            ),
        forall|i: int, j: int|
            0 <= i < j < groups.len() ==> (#[trigger] groups[i])@.representative < (
            #[trigger] groups[j])@.representative,
        forall|members: Seq<u64>| #[trigger]
            is_component(nodes, edges, members) && members.len() >= min_size ==> exists|i: int|
                0 <= i < groups.len() && (#[trigger] groups[i])@.members == members,
{
    let lists = members_of(groups);
    law_lists_are_as_large_as_asked(nodes, edges, min_size, lists);
    assert forall|i: int| 0 <= i < groups.len() implies (#[trigger] groups[i])@.members.len()
        >= min_size && groups[i]@.members.len() >= 1 && is_component(
        nodes,
        edges,
        groups[i]@.members,
    ) by {
        assert(lists[i] == groups[i]@.members);
    }
    assert forall|i: int, j: int|
        0 <= i < groups.len() && 0 <= j < groups[i]@.members.len() implies (
    #[trigger] groups[i])@.representative <= #[trigger] groups[i]@.members[j] by {
        assert(is_component(nodes, edges, groups[i]@.members));
        if j > 0 {
            assert(groups[i]@.members[0] < groups[i]@.members[j]);
        }
    }
    assert forall|i: int| 0 <= i < groups.len() implies groups[i]@.members.contains(
        (#[trigger] groups[i])@.representative,
    ) by {
        assert(groups[i]@.members[0] == groups[i]@.representative);
    }
    assert forall|i: int, j: int| 0 <= i < j < groups.len() implies (
    #[trigger] groups[i])@.representative < (#[trigger] groups[j])@.representative by {
        assert(lists[i][0] < lists[j][0]);
    }
    assert forall|members: Seq<u64>| #[trigger]
        is_component(nodes, edges, members) && members.len() >= min_size implies exists|i: int|
        0 <= i < groups.len() && (#[trigger] groups[i])@.members == members by {
        assert(lists.contains(members));
        let i = choose|i: int| 0 <= i < lists.len() && lists[i] == members;
        assert(groups[i]@.members == members);
    }
}

/// A component holds nodes, each once and in ascending order, and both keys of a pair or
/// none.
pub proof fn law_components_are_closed(
    nodes: Set<u64>,
    edges: Seq<(u64, u64)>,
    members: Seq<u64>,
    pair: int,
)
    requires
        is_component(nodes, edges, members),
        0 <= pair < edges.len(),
        nodes.contains(edges[pair].0),
        nodes.contains(edges[pair].1),
    ensures
        members.contains(edges[pair].0) == members.contains(edges[pair].1),
        forall|i: int| 0 <= i < members.len() ==> nodes.contains(#[trigger] members[i]),
        forall|i: int, j: int| 0 <= i < j < members.len() ==> members[i] < members[j],
{
    let (left, right) = edges[pair];
    assert(edges.contains((left, right)));
    lemma_edge_links(edges, left, right);
    lemma_edge_links(edges, right, left);
    if members.contains(left) {
        lemma_linked_transitive(edges, members[0], left, right);
    }
    if members.contains(right) {
        lemma_linked_transitive(edges, members[0], right, left);
    }
    assert forall|i: int| 0 <= i < members.len() implies nodes.contains(#[trigger] members[i]) by {
        assert(members.contains(members[i]));
    }
}

proof fn lemma_path_stays(edges: Seq<(u64, u64)>, path: Seq<u64>, part: Set<u64>, upto: int)
    requires
        is_path(edges, path),
        part.contains(path[0]),
        0 <= upto < path.len(),
        forall|k: int|
            0 <= k < edges.len() ==> part.contains((#[trigger] edges[k]).0) == part.contains(
                edges[k].1,
            ),
    ensures
        part.contains(path[upto]),
    decreases upto,
{
    if upto > 0 {
        lemma_path_stays(edges, path, part, upto - 1);
        let left = path[upto - 1];
        let right = path[upto];
        assert(adjacent(edges, left, right));
        if edges.contains((left, right)) {
            let k = choose|k: int| 0 <= k < edges.len() && edges[k] == (left, right);
            assert(part.contains(edges[k].0));
        } else {
            let k = choose|k: int| 0 <= k < edges.len() && edges[k] == (right, left);
            assert(part.contains(edges[k].1));
        }
    }
}

/// A component is connected: a set of keys that holds both keys of every pair or none,
/// and holds one member, holds them all.
pub proof fn law_components_are_connected(
    nodes: Set<u64>,
    edges: Seq<(u64, u64)>,
    members: Seq<u64>,
    part: Set<u64>,
    inside: int,
)
    requires
        is_component(nodes, edges, members),
        forall|k: int|
            0 <= k < edges.len() ==> part.contains((#[trigger] edges[k]).0) == part.contains(
                edges[k].1,
            ),
        0 <= inside < members.len(),
        part.contains(members[inside]),
    ensures
        forall|i: int| 0 <= i < members.len() ==> part.contains(#[trigger] members[i]),
{
    assert forall|i: int| 0 <= i < members.len() implies part.contains(#[trigger] members[i]) by {
        assert(members.contains(members[i]));
        assert(members.contains(members[inside]));
        lemma_linked_symmetric(edges, members[0], members[inside]);
        lemma_linked_transitive(edges, members[inside], members[0], members[i]);
        let path = choose|path: Seq<u64>| #[trigger]
            is_path(edges, path) && path.first() == members[inside] && path.last() == members[i];
        lemma_path_stays(edges, path, part, path.len() - 1);
    }
}

/// Whatever is closed and connected is a component, however large it is: keys in
/// ascending order that hold both keys of every pair or none, and that no closed set
/// divides.
pub proof fn law_closed_and_connected_keys_are_a_component(
    nodes: Set<u64>,
    edges: Seq<(u64, u64)>,
    members: Seq<u64>,
)
    requires
        members.len() > 0,
        forall|i: int, j: int| 0 <= i < j < members.len() ==> members[i] < members[j],
        forall|i: int| 0 <= i < members.len() ==> nodes.contains(#[trigger] members[i]),
        forall|k: int|
            0 <= k < edges.len() ==> members.contains((#[trigger] edges[k]).0)
                == members.contains(edges[k].1),
        forall|part: Set<u64>, i: int|
            0 <= i < members.len() && part.contains(members[0]) && (forall|k: int|
                0 <= k < edges.len() ==> part.contains((#[trigger] edges[k]).0) == part.contains(
                    edges[k].1,
                )) ==> #[trigger] part.contains(members[i]),
    ensures
        is_component(nodes, edges, members),
{
    let reached = Set::<u64>::new(|key: u64| linked(edges, members[0], key));
    lemma_linked_reflexive(edges, members[0]);
    assert forall|k: int| 0 <= k < edges.len() implies reached.contains((#[trigger] edges[k]).0)
        == reached.contains(edges[k].1) by {
        let (left, right) = edges[k];
        assert(edges.contains((left, right)));
        lemma_edge_links(edges, left, right);
        lemma_edge_links(edges, right, left);
        if reached.contains(left) {
            lemma_linked_transitive(edges, members[0], left, right);
        }
        if reached.contains(right) {
            lemma_linked_transitive(edges, members[0], right, left);
        }
    }
    assert forall|key: u64| members.contains(key) implies nodes.contains(key) && linked(
        edges,
        members[0],
        key,
    ) by {
        let i = choose|i: int| 0 <= i < members.len() && members[i] == key;
        assert(reached.contains(members[i]));
    }
    assert forall|key: u64| linked(edges, members[0], key) implies members.contains(key) by {
        let path = choose|path: Seq<u64>| #[trigger]
            is_path(edges, path) && path.first() == members[0] && path.last() == key;
        assert(members.to_set().contains(members[0]));
        lemma_path_stays(edges, path, members.to_set(), path.len() - 1);
    }
}

/// Where a selector chooses the representatives, there is one group for each component: it
/// has the members of the component and is represented by the member that was chosen, and
/// the groups ascend by their representatives.
pub proof fn law_selected_groups_are_the_components<F: Fn(&[u64]) -> u64>(
    components: Seq<Seq<u64>>,
    selector: F,
    groups: Seq<DuplicateGroup>,
)
    requires
        are_selected_groups(components, selector, groups),
    ensures
        groups.len() == components.len(),
        forall|i: int|
            0 <= i < groups.len() ==> components.contains((#[trigger] groups[i])@.members)
                && groups[i]@.members.contains(groups[i]@.representative) && exists|slice: &[u64]|
                slice@ == groups[i]@.members && #[trigger] selector.ensures(
                    (slice,),
                    groups[i]@.representative,
                ),
        forall|members: Seq<u64>| #[trigger]
            components.contains(members) ==> exists|i: int|
                0 <= i < groups.len() && (#[trigger] groups[i])@.members == members,
        forall|i: int, j: int|
            0 <= i < j < groups.len() ==> (#[trigger] groups[i])@.representative < (
            #[trigger] groups[j])@.representative,
{
    assert forall|i: int| 0 <= i < groups.len() implies components.contains(
        (#[trigger] groups[i])@.members,
    ) && groups[i]@.members.contains(groups[i]@.representative) && exists|slice: &[u64]|
        slice@ == groups[i]@.members && #[trigger] selector.ensures(
            (slice,),
            groups[i]@.representative,
        ) by {
        assert(may_select(selector, groups[i]@.members, groups[i]@.representative));
    }
    assert forall|members: Seq<u64>| #[trigger] components.contains(members) implies exists|i: int|
        0 <= i < groups.len() && (#[trigger] groups[i])@.members == members by {
        let k = choose|k: int| 0 <= k < components.len() && components[k] == members;
        assert(members_of(groups).contains(components[k]));
        let i = choose|i: int|
            0 <= i < members_of(groups).len() && members_of(groups)[i] == components[k];
        assert(groups[i]@.members == members);
    }
}

/// Every list is read, in its place.
pub proof fn law_every_list_is_read(lists: Seq<Vec<u64>>)
    ensures
        lists_of(lists).len() == lists.len(),
        forall|i: int| 0 <= i < lists.len() ==> #[trigger] lists_of(lists)[i] == lists[i]@,
{
}


/// Every group has its members.
pub proof fn law_every_group_has_its_members(groups: Seq<DuplicateGroup>)
    ensures
        members_of(groups).len() == groups.len(),
        forall|i: int| 0 <= i < groups.len() ==> #[trigger] members_of(groups)[i] == groups[i]@.members,
{
}

} // verus!
