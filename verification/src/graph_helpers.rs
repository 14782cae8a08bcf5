//! The path query: a name index from node label to node handle, and a
//! single-pair shortest-path-length query by label. An unknown label is a
//! distinct outcome, never conflated with a pair that no path connects.

use vstd::prelude::*;

use crate::analysis::RoadNetwork;

verus! {

/// What a path query answers: the shortest-hop distance between the two
/// named nodes, or `NoPath` when no path connects them, or `UnknownLabel`
/// when either label names no node at all.
#[derive(Clone, Copy, Debug, PartialEq, Eq, Structural)]
pub enum PathQueryOutcome {
    Distance(usize),
    NoPath,
    UnknownLabel,
}

/// A label-to-handle lookup built beside the graph during construction:
/// entry `i` is the label of the node with handle `i`, and a label resolves
/// to the first handle that carries it.
pub struct NameIndex {
    names: Vec<String>,
}

impl NameIndex {
    /// The labels, by node handle.
    pub closed spec fn names_view(self) -> Seq<Seq<char>> {
        self.names.deep_view()
    }

    /// The number of handles the index knows.
    pub open spec fn len(self) -> nat {
        self.names_view().len()
    }

    /// `name` resolves to handle `i`: the first handle labeled `name`.
    pub open spec fn resolves_to(self, name: Seq<char>, i: int) -> bool {
        &&& 0 <= i < self.names_view().len()
        &&& self.names_view()[i] == name
        &&& forall|j: int| 0 <= j < i ==> self.names_view()[j] != name
    }

    /// Some handle carries `name`.
    pub open spec fn knows(self, name: Seq<char>) -> bool {
        exists|i: int| 0 <= i < self.names_view().len() && self.names_view()[i] == name
    }

    /// An empty index.
    pub fn new() -> (index: NameIndex)
        ensures
            index.len() == 0,
    {
        NameIndex { names: Vec::new() }
    }

    /// Records the label of the next node handle.
    pub fn push_label(&mut self, name: String)
        ensures
            final(self).names_view() == old(self).names_view().push(name@),
    {
        self.names.push(name);
        proof {
            assert(self.names_view() =~= old(self).names_view().push(name@));
        }
    }

    /// Looks `name` up: the first handle labeled `name`, if any carries it.
    pub fn lookup(&self, name: &String) -> (r: Option<usize>)
        ensures
            match r {
                Some(i) => self.resolves_to(name@, i as int),
                None => !self.knows(name@),
            },
    {
        let mut i: usize = 0;
        while i < self.names.len()
            invariant
                i <= self.names@.len(),
                self.names_view().len() == self.names@.len(),
                forall|j: int| 0 <= j < i ==> self.names_view()[j] != name@,
            decreases self.names@.len() - i,
        {
            if self.names[i] == *name {
                proof {
                    assert(self.names_view()[i as int] == name@);
                }
                return Some(i);
            }
            i = i + 1;
        }
        None
    }
}

/// Answers a single-pair shortest-path query by node label: both labels are
/// looked up in the index, and the path length between the two handles is
/// measured by breadth-first search over the network, every edge counting
/// one hop. A label absent from the index yields `UnknownLabel`; two known
/// but disconnected nodes yield `NoPath`.
pub fn find_minimum_path(
    network: &RoadNetwork,
    index: &NameIndex,
    start: &String,
    target: &String,
) -> (r: PathQueryOutcome)
    requires
        network.wf(),
        index.len() == network.n(),
    ensures
        r == PathQueryOutcome::UnknownLabel <==> (!index.knows(start@) || !index.knows(target@)),
        forall|s: usize, t: usize|
            #[trigger] index.resolves_to(start@, s as int) && #[trigger] index.resolves_to(
                target@,
                t as int,
            ) ==> match r {
                PathQueryOutcome::Distance(hops) => network.is_hop_distance(s, t, hops as nat),
                PathQueryOutcome::NoPath => !network.reachable(s, t),
                PathQueryOutcome::UnknownLabel => true,
            },
{
    let start_node = match index.lookup(start) {
        Some(s) => s,
        None => {
            return PathQueryOutcome::UnknownLabel;
        },
    };
    let target_node = match index.lookup(target) {
        Some(t) => t,
        None => {
            return PathQueryOutcome::UnknownLabel;
        },
    };
    let separation = network.shortest_hop_distance(start_node, target_node);
    let outcome = match separation {
        Some(hops) => PathQueryOutcome::Distance(hops),
        None => PathQueryOutcome::NoPath,
    };
    proof {
        assert(index.knows(start@)) by {
            assert(index.names_view()[start_node as int] == start@);
        }
        assert(index.knows(target@)) by {
            assert(index.names_view()[target_node as int] == target@);
        }
        assert forall|s: usize, t: usize|
            #[trigger] index.resolves_to(start@, s as int) && #[trigger] index.resolves_to(
                target@,
                t as int,
            ) implies match outcome {
            PathQueryOutcome::Distance(hops) => network.is_hop_distance(s, t, hops as nat),
            PathQueryOutcome::NoPath => !network.reachable(s, t),
            PathQueryOutcome::UnknownLabel => true,
        } by {
            if (s as int) < start_node as int {
                assert(index.names_view()[s as int] != start@);
            }
            if (start_node as int) < s as int {
                assert(index.names_view()[start_node as int] != start@);
            }
            assert(s == start_node);
            if (t as int) < target_node as int {
                assert(index.names_view()[t as int] != target@);
            }
            if (target_node as int) < t as int {
                assert(index.names_view()[target_node as int] != target@);
            }
            assert(t == target_node);
        }
    }
    outcome
}

} // verus!

