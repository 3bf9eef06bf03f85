//! Disjoint sets over consecutive node numbers.

use vstd::prelude::*;

verus! {

/// A union-find forest with path compression and union by rank.
pub struct UnionFind {
    parent: Vec<usize>,
    rank: Vec<u8>,
    roots: Ghost<Seq<int>>,
    levels: Ghost<Seq<nat>>,
}

impl UnionFind {
    /// Parents lead to the root of the class, and every step to a parent goes
    /// to a lower level.
    pub closed spec fn wf(&self) -> bool {
        let n = self.parent@.len();
        &&& self.rank@.len() == n
        &&& self.roots@.len() == n
        &&& self.levels@.len() == n
        &&& forall|i: int| 0 <= i < n ==> (#[trigger] self.parent@[i]) < n
        &&& forall|i: int| 0 <= i < n ==> 0 <= (#[trigger] self.roots@[i]) < n
        &&& forall|i: int|
            0 <= i < n ==> self.parent@[#[trigger] self.roots@[i]] == self.roots@[i]
        &&& forall|i: int|
            0 <= i < n ==> self.roots@[(#[trigger] self.parent@[i]) as int] == self.roots@[i]
        &&& forall|i: int| 0 <= i < n && #[trigger] self.parent@[i] == i ==> self.roots@[i] == i
        &&& forall|i: int|
            0 <= i < n && #[trigger] self.parent@[i] != i
                ==> self.levels@[self.parent@[i] as int] < self.levels@[i]
                && self.levels@[self.roots@[i]] < self.levels@[i]
    }

    /// How many nodes there are.
    pub closed spec fn size(&self) -> nat {
        self.parent@.len()
    }

    /// The node that stands for the class of `node`.
    pub closed spec fn root(&self, node: int) -> int {
        self.roots@[node]
    }

    /// Both nodes belong to one class.
    pub open spec fn joined(&self, left: int, right: int) -> bool {
        self.root(left) == self.root(right)
    }

    /// Roots are nodes.
    pub proof fn lemma_root_in_range(&self, node: int)
        requires
            self.wf(),
            0 <= node < self.size(),
        ensures
            0 <= self.root(node) < self.size(),
    {
        assert(0 <= self.roots@[node] < self.size());
    }

    /// A forest of `length` nodes, each alone in its class.
    pub fn with_len(length: usize) -> (forest: Self)
        ensures
            forest.wf(),
            forest.size() == length,
            forall|i: int, j: int|
                0 <= i < length && 0 <= j < length ==> (#[trigger] forest.joined(i, j) <==> i == j),
    {
        let mut forest = UnionFind {
            parent: Vec::new(),
            rank: Vec::new(),
            roots: Ghost(Seq::empty()),
            levels: Ghost(Seq::empty()),
        };
        let mut done: usize = 0;
        while done < length
            invariant
                done <= length,
                forest.wf(),
                forest.size() == done,
                forall|i: int, j: int|
                    0 <= i < done && 0 <= j < done ==> (#[trigger] forest.joined(i, j) <==> i == j),
            decreases length - done,
        {
            forest.push();
            done = done + 1;
        }
        forest
    }

    /// How many nodes there are.
    pub fn len(&self) -> (len: usize)
        ensures
            len == self.size(),
    {
        self.parent.len()
    }

    /// Add a node that is alone in its class.
    pub fn push(&mut self)
        requires
            old(self).wf(),
        ensures
            final(self).wf(),
            final(self).size() == old(self).size() + 1,
            forall|i: int, j: int|
                0 <= i < old(self).size() && 0 <= j < old(self).size() ==> (#[trigger] final(self).joined(i, j) <==> old(self).joined(i, j)),
            forall|i: int|
                0 <= i < old(self).size() ==> !#[trigger] final(self).joined(
                    i,
                    old(self).size() as int,
                ),
            forall|i: int|
                0 <= i < old(self).size() ==> !#[trigger] final(self).joined(
                    old(self).size() as int,
                    i,
                ),
    {
        let ghost before = *self;
        let node: usize = self.parent.len();
        self.parent.push(node);
        self.rank.push(0);
        proof {
            self.roots@ = self.roots@.push(node as int);
            self.levels@ = self.levels@.push(0);
            assert forall|i: int| 0 <= i < self.parent@.len() implies self.roots@[(
            #[trigger] self.parent@[i]) as int] == self.roots@[i] by {
                if i < node {
                    assert(before.parent@[i] < node);
                }
            }
            assert forall|i: int| 0 <= i < self.parent@.len() implies self.parent@[
                #[trigger] self.roots@[i]
            ] == self.roots@[i] by {
                if i < node {
                    assert(0 <= before.roots@[i] < node);
                }
            }
            assert forall|i: int|
                0 <= i < self.parent@.len() && #[trigger] self.parent@[i] != i implies self.levels@[self.parent@[i] as int]
                < self.levels@[i] && self.levels@[self.roots@[i]] < self.levels@[i] by {
                assert(before.parent@[i] < node);
                assert(0 <= before.roots@[i] < node);
            }
            assert forall|i: int| 0 <= i < node implies !#[trigger] self.joined(i, node as int) by {
                assert(0 <= before.roots@[i] < node);
            }
            assert forall|i: int| 0 <= i < node implies !#[trigger] self.joined(node as int, i) by {
                assert(0 <= before.roots@[i] < node);
            }
        }
    }

    /// Find the root of a class and let every node on the way point to it.
    pub fn find(&mut self, node: usize) -> (root: usize)
        requires
            old(self).wf(),
            node < old(self).size(),
        ensures
            final(self).wf(),
            final(self).size() == old(self).size(),
            forall|i: int| final(self).root(i) == old(self).root(i),
            root == old(self).root(node as int),
            root < old(self).size(),
    {
        let mut root: usize = node;
        while self.parent[root] != root
            invariant
                self.wf(),
                *self == *old(self),
                root < self.parent@.len(),
                node < self.parent@.len(),
                self.roots@[root as int] == self.roots@[node as int],
            decreases self.levels@[root as int],
        {
            root = self.parent[root];
        }
        let mut current: usize = node;
        while self.parent[current] != current
            invariant
                self.wf(),
                self.parent@.len() == old(self).parent@.len(),
                self.roots == old(self).roots,
                self.levels == old(self).levels,
                root < self.parent@.len(),
                self.parent@[root as int] == root,
                root == self.roots@[node as int],
                current < self.parent@.len(),
                self.roots@[current as int] == root,
            decreases self.levels@[current as int],
        {
            let next: usize = self.parent[current];
            let ghost before = *self;
            self.parent[current] = root;
            proof {
                assert(before.roots@[root as int] == root);
                assert forall|i: int| 0 <= i < self.parent@.len() implies self.parent@[
                    #[trigger] self.roots@[i]
                ] == self.roots@[i] by {
                    assert(before.parent@[before.roots@[i]] == before.roots@[i]);
                }
                assert forall|i: int| 0 <= i < self.parent@.len() implies self.roots@[(
                #[trigger] self.parent@[i]) as int] == self.roots@[i] by {
                    assert(before.roots@[before.parent@[i] as int] == before.roots@[i]);
                }
                assert forall|i: int|
                    0 <= i < self.parent@.len() && #[trigger] self.parent@[i]
                        != i implies self.levels@[self.parent@[i] as int] < self.levels@[i]
                    && self.levels@[self.roots@[i]] < self.levels@[i] by {
                    assert(before.parent@[i] != i);
                }
            }
            current = next;
        }
        root
    }

    /// Whether both nodes belong to one class.
    pub fn connected(&mut self, left: usize, right: usize) -> (connected: bool)
        requires
            old(self).wf(),
            left < old(self).size(),
            right < old(self).size(),
        ensures
            final(self).wf(),
            final(self).size() == old(self).size(),
            forall|i: int| final(self).root(i) == old(self).root(i),
            connected == old(self).joined(left as int, right as int),
    {
        let left_root: usize = self.find(left);
        let right_root: usize = self.find(right);
        left_root == right_root
    }

    /// Join the classes of both nodes.
    pub fn union(&mut self, left: usize, right: usize)
        requires
            old(self).wf(),
            left < old(self).size(),
            right < old(self).size(),
        ensures
            final(self).wf(),
            final(self).size() == old(self).size(),
            forall|i: int, j: int|
                0 <= i < old(self).size() && 0 <= j < old(self).size() ==> (#[trigger] final(self).joined(i, j) <==> old(self).joined(i, j) || (old(self).joined(i, left as int)
                    && old(self).joined(j, right as int)) || (old(self).joined(i, right as int)
                    && old(self).joined(j, left as int))),
    {
        let mut left_root: usize = self.find(left);
        let mut right_root: usize = self.find(right);
        if left_root == right_root {
            return;
        }
        let ghost before = *self;
        proof {
            assert(before.parent@[before.roots@[left as int]] == before.roots@[left as int]);
            assert(before.parent@[before.roots@[right as int]] == before.roots@[right as int]);
            assert(before.root(left as int) == left_root);
            assert(before.root(right as int) == right_root);
        }
        if self.rank[left_root] < self.rank[right_root] {
            let swapped: usize = left_root;
            left_root = right_root;
            right_root = swapped;
        }
        self.parent[right_root] = left_root;
        if self.rank[left_root] == self.rank[right_root] {
            self.rank[left_root] = self.rank[left_root].saturating_add(1);
        }
        proof {
            let n = before.parent@.len();
            let keep = left_root as int;
            let gone = right_root as int;
            assert(before.roots@[keep] == keep);
            assert(before.roots@[gone] == gone);
            self.roots@ = Seq::new(
                n,
                |i: int|
                    if before.roots@[i] == gone {
                        keep
                    } else {
                        before.roots@[i]
                    },
            );
            self.levels@ = Seq::new(
                n,
                |i: int|
                    if before.roots@[i] == gone {
                        before.levels@[i] + before.levels@[keep] + 1
                    } else {
                        before.levels@[i]
                    },
            );
            assert forall|i: int| 0 <= i < n implies (#[trigger] self.parent@[i]) < n by {
                assert(before.parent@[i] < n);
            }
            assert forall|i: int| 0 <= i < n implies 0 <= (#[trigger] self.roots@[i]) < n by {
                assert(0 <= before.roots@[i] < n);
            }
            assert forall|i: int| 0 <= i < n implies self.parent@[#[trigger] self.roots@[i]]
                == self.roots@[i] by {
                assert(before.parent@[before.roots@[i]] == before.roots@[i]);
            }
            assert forall|i: int| 0 <= i < n implies self.roots@[(
            #[trigger] self.parent@[i]) as int] == self.roots@[i] by {
                assert(before.parent@[i] < n);
                assert(before.roots@[before.parent@[i] as int] == before.roots@[i]);
            }
            assert forall|i: int| 0 <= i < n && #[trigger] self.parent@[i]
                == i implies self.roots@[i] == i by {
                assert(before.parent@[i] == i || i == gone);
            }
            assert forall|i: int|
                0 <= i < n && #[trigger] self.parent@[i] != i implies self.levels@[self.parent@[i] as int]
                < self.levels@[i] && self.levels@[self.roots@[i]] < self.levels@[i] by {
                assert(before.parent@[i] < n);
                assert(before.roots@[before.parent@[i] as int] == before.roots@[i]);
                assert(0 <= before.roots@[i] < n);
                if i != gone {
                    assert(before.parent@[i] != i);
                }
            }
            assert forall|i: int, j: int| 0 <= i < n && 0 <= j < n implies (
            #[trigger] self.joined(i, j) <==> before.joined(i, j) || (before.joined(
                i,
                left as int,
            ) && before.joined(j, right as int)) || (before.joined(i, right as int)
                && before.joined(j, left as int))) by {
                assert(self.root(i) == self.roots@[i] && self.root(j) == self.roots@[j]);
            }
        }
    }
}

} // verus!
