//! The undirected graph of regions that touch.

use std::collections::HashMap;
use std::collections::HashSet;
use vstd::prelude::*;
use vstd::std_specs::hash::*;

verus! {

broadcast use group_hash_axioms;

/// Whether `a` and `b` can be joined by an edge: both are real regions and they differ.
pub open spec fn is_edge(a: u32, b: u32) -> bool {
    a != 0 && b != 0 && a != b
}

/// The edge set `edges` after `a` and `b` were recorded as touching.
pub open spec fn with_edge(edges: Set<(u32, u32)>, a: u32, b: u32) -> Set<(u32, u32)> {
    if is_edge(a, b) {
        edges.insert((a, b)).insert((b, a))
    } else {
        edges
    }
}

/// The regions that touch `a` according to `edges`.
pub open spec fn neighbors_of(edges: Set<(u32, u32)>, a: u32) -> Set<u32> {
    Set::new(|b: u32| edges.contains((a, b)))
}

/// The regions that touch at least one other region according to `edges`.
pub open spec fn regions_of(edges: Set<(u32, u32)>) -> Set<u32> {
    Set::new(|a: u32| exists|b: u32| edges.contains((a, b)))
}

/// Every pair of `edges` joins two distinct real regions and is present in both directions.
pub open spec fn is_undirected(edges: Set<(u32, u32)>) -> bool {
    forall|a: u32, b: u32| #[trigger] edges.contains((a, b)) ==> is_edge(a, b) && edges.contains((b, a))
}

/// An undirected graph over region ids, stored as one neighbor set per region.
///
/// Its view is the set of ordered pairs `(a, b)` such that `b` is a neighbor of `a`.
pub struct NeighborGraph {
    adjacency: HashMap<u32, HashSet<u32>>,
}

impl View for NeighborGraph {
    type V = Set<(u32, u32)>;

    closed spec fn view(&self) -> Set<(u32, u32)> {
        Set::new(
            |p: (u32, u32)| self.adjacency@.contains_key(p.0) && self.adjacency@[p.0]@.contains(p.1),
        )
    }
}

impl NeighborGraph {
    /// No region is stored with an empty neighbor set.
    pub closed spec fn no_empty_entry(&self) -> bool {
        forall|a: u32| #[trigger]
            self.adjacency@.contains_key(a) ==> self.adjacency@[a]@.finite()
                && self.adjacency@[a]@.len() > 0
    }

    /// The graph is well formed: it is undirected, has no self loop and never mentions region 0.
    pub open spec fn wf(&self) -> bool {
        self.no_empty_entry() && is_undirected(self@)
    }

    /// The graph without any edge.
    pub fn new() -> (graph: Self)
        ensures
            graph.wf(),
            graph@ == Set::<(u32, u32)>::empty(),
    {
        let graph = NeighborGraph { adjacency: HashMap::new() };
        assert(graph@ =~= Set::<(u32, u32)>::empty());
        graph
    }

    /// The stored neighbor set of `a`, if `a` has any neighbor.
    pub(crate) fn neighbor_set(&self, a: u32) -> (found: Option<&HashSet<u32>>)
        requires
            self.wf(),
        ensures
            match found {
                Some(set) => set@ == neighbors_of(self@, a) && set@.finite() && set@.len() > 0,
                None => neighbors_of(self@, a) == Set::<u32>::empty(),
            },
    {
        let found = self.adjacency.get(&a);
        proof {
            match found {
                Some(set) => {
                    assert(set@ =~= neighbors_of(self@, a));
                },
                None => {
                    assert(neighbors_of(self@, a) =~= Set::<u32>::empty());
                },
            }
        }
        found
    }

    /// How many regions touch `a`.
    pub fn neighbor_count(&self, a: u32) -> (count: usize)
        requires
            self.wf(),
        ensures
            count == neighbors_of(self@, a).len(),
    {
        match self.neighbor_set(a) {
            Some(set) => set.len(),
            None => 0,
        }
    }

    /// Whether `b` is recorded as touching `a`.
    pub fn are_neighbors(&self, a: u32, b: u32) -> (touching: bool)
        requires
            self.wf(),
        ensures
            touching == self@.contains((a, b)),
    {
        assert(neighbors_of(self@, a).contains(b) == self@.contains((a, b)));
        match self.neighbor_set(a) {
            Some(set) => set.contains(&b),
            None => false,
        }
    }

    /// How many regions have at least one neighbor.
    pub fn len(&self) -> (count: usize)
        requires
            self.wf(),
        ensures
            count == regions_of(self@).len(),
    {
        proof {
            assert forall|a: u32| self.adjacency@.dom().contains(a) implies regions_of(
                self@,
            ).contains(a) by {
                let b = self.adjacency@[a]@.choose();
                assert(self@.contains((a, b)));
            }
            assert(regions_of(self@) =~= self.adjacency@.dom());
        }
        self.adjacency.len()
    }

    /// Records `b` as a neighbor of `a`, in that direction only.
    fn link(&mut self, a: u32, b: u32)
        requires
            old(self).no_empty_entry(),
        ensures
            final(self).no_empty_entry(),
            final(self)@ == old(self)@.insert((a, b)),
    {
        let set = self.adjacency.entry(a).or_insert(HashSet::new());
        set.insert(b);
        assert(self@ =~= old(self)@.insert((a, b)));
    }
}

/// Records that regions `a` and `b` touch. Nothing changes when either is
/// region 0 or when both are the same region.
pub fn add_neighbor(graph: &mut NeighborGraph, a: u32, b: u32)
    requires
        old(graph).wf(),
    ensures
        final(graph).wf(),
        final(graph)@ == with_edge(old(graph)@, a, b),
{
    if a != 0 && b != 0 && a != b {
        graph.link(a, b);
        graph.link(b, a);
    }
}

/// In a well-formed graph, `a` is a neighbor of `b` exactly when `b` is a
/// neighbor of `a`.
pub proof fn lemma_neighbors_are_mutual(graph: NeighborGraph, a: u32, b: u32)
    requires
        graph.wf(),
    ensures
        graph@.contains((a, b)) <==> graph@.contains((b, a)),
        neighbors_of(graph@, a).contains(b) <==> neighbors_of(graph@, b).contains(a),
{
}

/// In a well-formed graph no region is its own neighbor, and region 0 is
/// neither a neighbor of any region nor has it any neighbor.
pub proof fn lemma_no_loop_no_sentinel(graph: NeighborGraph, a: u32)
    requires
        graph.wf(),
    ensures
        !graph@.contains((a, a)),
        !graph@.contains((0, a)),
        !graph@.contains((a, 0)),
        !regions_of(graph@).contains(0),
        neighbors_of(graph@, 0) == Set::<u32>::empty(),
{
    assert(neighbors_of(graph@, 0) =~= Set::<u32>::empty());
}

/// Recording the same pair of regions a second time, in either order, changes nothing.
pub proof fn lemma_edge_twice_is_once(edges: Set<(u32, u32)>, a: u32, b: u32)
    ensures
        with_edge(with_edge(edges, a, b), a, b) == with_edge(edges, a, b),
        with_edge(with_edge(edges, a, b), b, a) == with_edge(edges, a, b),
        with_edge(edges, b, a) == with_edge(edges, a, b),
{
    assert(with_edge(with_edge(edges, a, b), a, b) =~= with_edge(edges, a, b));
    assert(with_edge(with_edge(edges, a, b), b, a) =~= with_edge(edges, a, b));
    assert(with_edge(edges, b, a) =~= with_edge(edges, a, b));
}

/// Recording a pair of regions that an undirected edge set already joins
/// changes nothing.
pub proof fn lemma_known_edge_changes_nothing(edges: Set<(u32, u32)>, a: u32, b: u32)
    requires
        is_undirected(edges),
        edges.contains((a, b)),
    ensures
        with_edge(edges, a, b) == edges,
{
    assert(edges.contains((b, a)));
    assert(with_edge(edges, a, b) =~= edges);
}

/// Recording a pair of regions keeps an undirected edge set undirected.
pub proof fn lemma_with_edge_is_undirected(edges: Set<(u32, u32)>, a: u32, b: u32)
    requires
        is_undirected(edges),
    ensures
        is_undirected(with_edge(edges, a, b)),
{
}

} // verus!
