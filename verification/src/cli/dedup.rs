//! What deduplication writes: candidate pairs, or groups of duplicates.

use vstd::prelude::*;

use crate::cli::output;
use crate::cli::output::{group_line, pair_line};
use crate::index::grouping;
use crate::index::grouping::DuplicateGroup;
use crate::index::lsh::pairs;
use crate::index::lsh::stream::PairStream;
use crate::index::lsh::{LshIndex32, LshState};
use crate::text;

verus! {

/// What is written for an index.
#[derive(Debug, Clone, Copy, PartialEq, Eq, Structural)]
pub enum DedupOutput {
    /// A line for every pair of candidates.
    Pairs,
    /// A line for every group of duplicates.
    Groups,
}

/// The sequence holds every pair of candidates exactly once.
pub open spec fn lists_pairs(state: LshState, found: Seq<(u64, u64)>) -> bool {
    &&& found.no_duplicates()
    &&& forall|pair: (u64, u64)| #[trigger] found.contains(pair) <==> state.is_pair(pair)
}

proof fn lemma_advanced(stream: PairStream)
    requires
        !stream.over(),
    ensures
        ({
            let after = stream.advanced();
            &&& after.lists == stream.lists
            &&& after.bucket >= stream.bucket
            &&& after.lists.len() - after.bucket > 0
            &&& after.bucket == stream.bucket ==> after.left >= stream.left
            &&& after.bucket == stream.bucket && after.left == stream.left ==> after.right
                > stream.right
            &&& after.lists[after.bucket].len() - after.left > 0
            &&& after.lists[after.bucket].len() - after.right >= 0
            &&& after.produced == stream.produced.insert(stream.next_pair())
        }),
{
    let (bucket, left, right) = stream.next_position();
    assert(stream.is_next(bucket, left, right));
}

/// Collect every pair of candidates, in the order in which the index streams
/// them.
pub fn collect_pairs(index: &LshIndex32) -> (found: Vec<(u64, u64)>)
    requires
        index.wf(),
    ensures
        index.pair_stream().gives(found@),
        lists_pairs(index@, found@),
{
    let ghost start = index.pair_stream();
    let mut found: Vec<(u64, u64)> = Vec::new();
    let mut stream = index.candidate_pairs();
    let mut over = false;
    while !over
        invariant
            stream.wf(),
            stream.source() == index@,
            start == index.pair_stream(),
            found@.no_duplicates(),
            forall|pair: (u64, u64)| #[trigger]
                found@.contains(pair) <==> stream@.produced.contains(pair),
            start.gives_first(found@),
            !over ==> stream@ == start.after(found@.len()),
            over ==> lists_pairs(index@, found@) && start.after(found@.len()).over(),
        decreases
                if over {
                    0int
                } else {
                    1
                },
                stream@.lists.len() - stream@.bucket,
                stream@.lists[stream@.bucket].len() - stream@.left,
                stream@.lists[stream@.bucket].len() - stream@.right,
    {
        let ghost before = stream@;
        let ghost held = found@;
        match stream.next() {
            Some(pair) => {
                proof {
                    lemma_advanced(before);
                }
                found.push(pair);
                proof {
                    assert(start.after(found@.len()) == before.advanced());
                    start.lemma_gives_more(held);
                    assert(!held.contains(pair));
                    assert forall|other: (u64, u64)| #[trigger]
                        found@.contains(other) <==> stream@.produced.contains(other) by {
                        if held.contains(other) {
                            let i = choose|i: int| 0 <= i < held.len() && held[i] == other;
                            assert(found@[i] == other);
                        }
                        if other == pair {
                            assert(found@[held.len() as int] == other);
                        }
                        if found@.contains(other) && other != pair {
                            let i = choose|i: int| 0 <= i < found@.len() && found@[i] == other;
                            assert(held[i] == other);
                        }
                    }
                }
            },
            None => {
                over = true;
            },
        }
    }
    found
}

/// The lines of pairs.
pub open spec fn pair_lines(found: Seq<(u64, u64)>) -> Seq<Seq<char>> {
    Seq::new(
        found.len(),
        |i: int|
            text::decimal(found[i].0 as nat) + "\t"@ + text::decimal(found[i].1 as nat),
    )
}

/// The lines of groups.
pub open spec fn group_lines(groups: Seq<DuplicateGroup>) -> Seq<Seq<char>> {
    Seq::new(
        groups.len(),
        |i: int|
            text::decimal(groups[i]@.representative as nat) + "\t"@ + output::comma_separated(
                groups[i]@.members,
            ),
    )
}

/// The groups of the items of an index that collide, from a smallest size on.
pub open spec fn groups_from(
    state: LshState,
    min_size: usize,
    groups: Seq<DuplicateGroup>,
    edges: Seq<(u64, u64)>,
) -> bool {
    pairs::is_collision_graph(state, edges) && grouping::are_default_groups(
        state.items.dom(),
        edges,
        grouping::minimum_of(min_size),
        groups,
    )
}

/// The lines tell the pairs of the index in the order in which it streams them, or
/// its groups.
pub open spec fn tells(
    lines: Seq<Seq<char>>,
    index: LshIndex32,
    emit: DedupOutput,
    min_size: usize,
) -> bool {
    match emit {
        DedupOutput::Pairs => exists|found: Seq<(u64, u64)>| #[trigger]
            index.pair_stream().gives(found) && lists_pairs(index@, found) && lines == pair_lines(
                found,
            ),
        DedupOutput::Groups => exists|groups: Seq<DuplicateGroup>, edges: Seq<(u64, u64)>|
            #[trigger] groups_from(index@, min_size, groups, edges) && lines == group_lines(groups),
    }
}

/// Group the items of an index that collide, from a smallest size on.
pub fn collect_groups(index: &LshIndex32, min_size: usize) -> (groups: Vec<DuplicateGroup>)
    requires
        index.wf(),
    ensures
        exists|edges: Seq<(u64, u64)>| #[trigger] groups_from(index@, min_size, groups@, edges),
{
    let accept = |left: u64, right: u64| -> (accepted: bool)
        ensures
            accepted,
        { true };
    let groups = index.duplicate_groups_with(min_size, accept);
    proof {
        let edges = choose|edges: Seq<(u64, u64)>| #[trigger]
            pairs::is_verified_graph(index@, accept, edges) && grouping::are_default_groups(
                index@.items.dom(),
                edges,
                grouping::minimum_of(min_size),
                groups@,
            );
        assert forall|i: int| 0 <= i < edges.len() implies index@.collide(
            (#[trigger] edges[i]).0,
            edges[i].1,
        ) by {
            assert(pairs::is_accepted(index@, accept, edges[i]));
        }
        assert forall|left: u64, right: u64|
            left != right && #[trigger] index@.collide(left, right) implies grouping::linked(
            edges,
            left,
            right,
        ) by {
            if left < right {
                assert(!accept.ensures((left, right), false));
            } else {
                let b = choose|b: int|
                    0 <= b < index@.params.bands && #[trigger] index@.items[left][b]
                        == index@.items[right][b];
                assert(index@.items[right][b] == index@.items[left][b]);
                assert(index@.collide(right, left));
                assert(!accept.ensures((right, left), false));
                grouping::lemma_linked_symmetric(edges, right, left);
            }
        }
        assert(groups_from(index@, min_size, groups@, edges));
    }
    groups
}

/// The lines that deduplication writes for an index.
pub fn dedup_lines(index: &LshIndex32, emit: DedupOutput, min_size: usize) -> (lines: Vec<String>)
    requires
        index.wf(),
    ensures
        tells(output::lines_of(lines@), *index, emit, min_size),
{
    let mut lines: Vec<String> = Vec::new();
    match emit {
        DedupOutput::Pairs => {
            let found = collect_pairs(index);
            let mut at: usize = 0;
            while at < found.len()
                invariant
                    at <= found@.len(),
                    lines@.len() == at,
                    forall|i: int| 0 <= i < at ==> (#[trigger] lines@[i])@ == pair_lines(found@)[i],
                decreases found@.len() - at,
            {
                let (left, right) = found[at];
                lines.push(pair_line(left, right));
                at = at + 1;
            }
            assert(output::lines_of(lines@) =~= pair_lines(found@));
            assert(lists_pairs(index@, found@));
        },
        DedupOutput::Groups => {
            let groups = collect_groups(index, min_size);
            let mut at: usize = 0;
            while at < groups.len()
                invariant
                    at <= groups@.len(),
                    lines@.len() == at,
                    forall|i: int|
                        0 <= i < at ==> (#[trigger] lines@[i])@ == group_lines(groups@)[i],
                decreases groups@.len() - at,
            {
                lines.push(group_line(&groups[at]));
                at = at + 1;
            }
            assert(output::lines_of(lines@) =~= group_lines(groups@));
            assert(exists|edges: Seq<(u64, u64)>| #[trigger]
                groups_from(index@, min_size, groups@, edges));
        },
    }
    lines
}

/// Every pair of keys that collide is told on a line of its own, the smaller key first, and
/// no other line is.
pub proof fn law_every_pair_is_told(
    lines: Seq<Seq<char>>,
    index: LshIndex32,
    min_size: usize,
)
    requires
        tells(lines, index, DedupOutput::Pairs, min_size),
    ensures
        forall|left: u64, right: u64|
            left < right && #[trigger] index@.collide(left, right) ==> lines.contains(
                text::decimal(left as nat) + "\t"@ + text::decimal(right as nat),
            ),
        forall|line: Seq<char>| #[trigger]
            lines.contains(line) ==> exists|left: u64, right: u64|
                left < right && #[trigger] index@.collide(left, right) && line == text::decimal(
                    left as nat,
                ) + "\t"@ + text::decimal(right as nat),
{
    let found = choose|found: Seq<(u64, u64)>| #[trigger]
        index.pair_stream().gives(found) && lists_pairs(index@, found) && lines == pair_lines(
            found,
        );
    assert forall|left: u64, right: u64|
        left < right && #[trigger] index@.collide(left, right) implies lines.contains(
        text::decimal(left as nat) + "\t"@ + text::decimal(right as nat),
    ) by {
        assert(index@.is_pair((left, right)));
        assert(found.contains((left, right)));
        let i = choose|i: int| 0 <= i < found.len() && found[i] == (left, right);
        assert(lines[i] == text::decimal(left as nat) + "\t"@ + text::decimal(right as nat));
    }
    assert forall|line: Seq<char>| #[trigger] lines.contains(line) implies exists|
        left: u64,
        right: u64,
    |
        left < right && #[trigger] index@.collide(left, right) && line == text::decimal(
            left as nat,
        ) + "\t"@ + text::decimal(right as nat) by {
        let i = choose|i: int| 0 <= i < lines.len() && lines[i] == line;
        assert(found.contains(found[i]));
        assert(index@.is_pair(found[i]));
        let (left, right) = found[i];
        assert(index@.collide(left, right));
    }
}

/// A group is told on a line of its own: its representative and all its members. Groups of
/// fewer than `min_size` members are not told, and every component of colliding keys that
/// has as many is.
pub proof fn law_every_group_is_told(
    lines: Seq<Seq<char>>,
    index: LshIndex32,
    min_size: usize,
) -> (told: (Seq<DuplicateGroup>, Seq<(u64, u64)>))
    requires
        tells(lines, index, DedupOutput::Groups, min_size),
    ensures
        pairs::is_collision_graph(index@, told.1),
        lines.len() == told.0.len(),
        forall|i: int|
            0 <= i < lines.len() ==> #[trigger] lines[i] == text::decimal(
                told.0[i]@.representative as nat,
            ) + "\t"@ + output::comma_separated(told.0[i]@.members),
        forall|i: int|
            0 <= i < told.0.len() ==> (#[trigger] told.0[i])@.members.len() >= min_size
                && grouping::is_component(index@.items.dom(), told.1, told.0[i]@.members),
        forall|members: Seq<u64>| #[trigger]
            grouping::is_component(index@.items.dom(), told.1, members) && members.len() >= min_size
                ==> exists|i: int|
                0 <= i < told.0.len() && (#[trigger] told.0[i])@.members == members,
{
    let (groups, edges) = choose|groups: Seq<DuplicateGroup>, edges: Seq<(u64, u64)>|
        #[trigger] groups_from(index@, min_size, groups, edges) && lines == group_lines(groups);
    grouping::law_groups_are_as_large_as_asked(index@.items.dom(), edges, min_size, groups);
    (groups, edges)
}

} // verus!
