//! Region reference data and the parent hierarchy it describes.

use std::collections::BTreeSet;
use std::collections::HashMap;
use vstd::prelude::*;
use vstd::std_specs::btree::*;
use vstd::std_specs::hash::*;

verus! {

broadcast use {group_hash_axioms, group_btree_axioms};

/// What the reference data records about one region.
#[derive(Debug, Clone)]
pub struct AreaInfo {
    /// The region's own id; never 0 for a real region.
    pub id: u32,
    /// The display name.
    pub name: String,
    /// The id of the enclosing region, or 0 when there is none.
    pub parent_id: u32,
    /// The level at which the region counts as explored.
    pub exploration_level: i32,
}

/// The parent recorded for `id`, or 0 when `id` is unknown.
pub open spec fn parent_of(areas: Map<u32, AreaInfo>, id: u32) -> u32 {
    if areas.contains_key(id) {
        areas[id].parent_id
    } else {
        0
    }
}

/// The region reached from `id` after following `steps` parent links.
pub open spec fn ancestor(areas: Map<u32, AreaInfo>, id: u32, steps: nat) -> u32
    decreases steps,
{
    if steps == 0 {
        id
    } else {
        parent_of(areas, ancestor(areas, id, (steps - 1) as nat))
    }
}

/// Whether the walk from `id` was already at the region it reaches after
/// `steps` links at some earlier step.
pub open spec fn revisits(areas: Map<u32, AreaInfo>, id: u32, steps: nat) -> bool {
    exists|earlier: nat|
        earlier < steps && #[trigger] ancestor(areas, id, earlier) == ancestor(areas, id, steps)
}

/// Whether the walk from `id` cannot go on after `steps` links: the region
/// reached is unknown, has no parent, or was seen before.
pub open spec fn walk_stops(areas: Map<u32, AreaInfo>, id: u32, steps: nat) -> bool {
    let at = ancestor(areas, id, steps);
    !areas.contains_key(at) || areas[at].parent_id == 0 || revisits(areas, id, steps)
}

/// Whether `steps` is the first step at which the walk from `id` stops.
pub open spec fn is_walk_length(areas: Map<u32, AreaInfo>, id: u32, steps: nat) -> bool {
    walk_stops(areas, id, steps) && forall|sooner: nat|
        sooner < steps ==> !#[trigger] walk_stops(areas, id, sooner)
}

/// The root ancestor of `id`.
///
/// Parent links are followed from `id` until a region without parent is
/// reached, which is the root. A walk that runs into a region it has already
/// seen ends there. A walk that leaves the known regions gives `id` itself.
pub open spec fn root_of(areas: Map<u32, AreaInfo>, id: u32) -> u32 {
    let steps = choose|steps: nat| is_walk_length(areas, id, steps);
    let at = ancestor(areas, id, steps);
    if areas.contains_key(at) {
        at
    } else {
        id
    }
}

/// The walk from `id` has at most one length.
pub proof fn lemma_walk_length_unique(areas: Map<u32, AreaInfo>, id: u32, n: nat, m: nat)
    requires
        is_walk_length(areas, id, n),
        is_walk_length(areas, id, m),
    ensures
        n == m,
{
    if n < m {
        assert(!walk_stops(areas, id, n));
    } else if m < n {
        assert(!walk_stops(areas, id, m));
    }
}

/// A known region without parent is its own root.
pub proof fn lemma_parentless_is_own_root(areas: Map<u32, AreaInfo>, id: u32)
    requires
        areas.contains_key(id),
        areas[id].parent_id == 0,
    ensures
        root_of(areas, id) == id,
{
    assert(is_walk_length(areas, id, 0));
    let steps = choose|steps: nat| is_walk_length(areas, id, steps);
    lemma_walk_length_unique(areas, id, steps, 0);
}

/// A region that the reference data does not know is its own root.
pub proof fn lemma_unknown_is_own_root(areas: Map<u32, AreaInfo>, id: u32)
    requires
        !areas.contains_key(id),
    ensures
        root_of(areas, id) == id,
{
    assert(is_walk_length(areas, id, 0));
    let steps = choose|steps: nat| is_walk_length(areas, id, steps);
    lemma_walk_length_unique(areas, id, steps, 0);
}

/// The walk from a region passes, one link later, where the walk from its
/// parent passes.
pub proof fn lemma_ancestor_through_parent(areas: Map<u32, AreaInfo>, id: u32, steps: nat)
    ensures
        ancestor(areas, id, steps + 1) == ancestor(areas, parent_of(areas, id), steps),
    decreases steps,
{
    let parent = parent_of(areas, id);
    assert(ancestor(areas, id, steps + 1) == parent_of(areas, ancestor(areas, id, steps))) by {
        assert((steps + 1 - 1) as nat == steps);
    }
    if steps == 0 {
        assert(ancestor(areas, id, 0) == id);
        assert(ancestor(areas, parent, 0) == parent);
    } else {
        lemma_ancestor_through_parent(areas, id, (steps - 1) as nat);
        assert(((steps - 1) as nat) + 1 == steps);
        assert(ancestor(areas, parent, steps) == parent_of(
            areas,
            ancestor(areas, parent, (steps - 1) as nat),
        ));
    }
}

/// A region has the root of its parent, provided that the walk from the
/// parent ends at a known region without parent and does not pass the region
/// itself.
pub proof fn lemma_root_through_parent(areas: Map<u32, AreaInfo>, id: u32, steps: nat)
    requires
        areas.contains_key(id),
        areas[id].parent_id != 0,
        is_walk_length(areas, areas[id].parent_id, steps),
        areas.contains_key(ancestor(areas, areas[id].parent_id, steps)),
        areas[ancestor(areas, areas[id].parent_id, steps)].parent_id == 0,
        forall|k: nat| k <= steps ==> #[trigger] ancestor(areas, areas[id].parent_id, k) != id,
    ensures
        root_of(areas, id) == ancestor(areas, areas[id].parent_id, steps),
        root_of(areas, id) == root_of(areas, areas[id].parent_id),
{
    let parent = areas[id].parent_id;
    let top = ancestor(areas, parent, steps);
    assert forall|k: nat| ancestor(areas, id, k + 1) == #[trigger] ancestor(areas, parent, k) by {
        lemma_ancestor_through_parent(areas, id, k);
    }
    assert(ancestor(areas, id, steps + 1) == top);
    assert(walk_stops(areas, id, steps + 1));
    assert forall|sooner: nat| sooner < steps + 1 implies !#[trigger] walk_stops(
        areas,
        id,
        sooner,
    ) by {
        if sooner > 0 {
            let k = (sooner - 1) as nat;
            assert(ancestor(areas, id, k + 1) == ancestor(areas, parent, k));
            assert(!walk_stops(areas, parent, k));
            if revisits(areas, id, sooner) {
                let earlier = choose|earlier: nat|
                    earlier < sooner && #[trigger] ancestor(areas, id, earlier) == ancestor(
                        areas,
                        id,
                        sooner,
                    );
                if earlier == 0 {
                    assert(ancestor(areas, parent, k) != id);
                } else {
                    let e = (earlier - 1) as nat;
                    assert(ancestor(areas, id, e + 1) == ancestor(areas, parent, e));
                    assert(revisits(areas, parent, k));
                }
            }
        }
    }
    assert(is_walk_length(areas, id, steps + 1));
    let chosen = choose|n: nat| is_walk_length(areas, id, n);
    lemma_walk_length_unique(areas, id, chosen, steps + 1);
    let chosen_parent = choose|n: nat| is_walk_length(areas, parent, n);
    lemma_walk_length_unique(areas, parent, chosen_parent, steps);
}

/// Resolves the root ancestor of `area_id` by following parent links.
///
/// The regions already passed are remembered, so the walk ends even when the
/// parent links form a cycle.
pub fn find_root_parent(area_id: u32, areas: &HashMap<u32, AreaInfo>) -> (root: u32)
    ensures
        root == root_of(areas@, area_id),
{
    let mut current = area_id;
    let mut visited: BTreeSet<u32> = BTreeSet::new();
    let ghost steps: nat = 0;
    loop
        invariant
            current == ancestor(areas@, area_id, steps),
            forall|sooner: nat| sooner < steps ==> !#[trigger] walk_stops(areas@, area_id, sooner),
            forall|v: u32|
                visited@.contains(v) <==> exists|earlier: nat|
                    earlier < steps && #[trigger] ancestor(areas@, area_id, earlier) == v,
            visited@.finite(),
            visited@.subset_of(areas@.dom()),
        decreases areas@.dom().len() - visited@.len(),
    {
        match areas.get(&current) {
            None => {
                proof {
                    assert(is_walk_length(areas@, area_id, steps));
                    let chosen = choose|n: nat| is_walk_length(areas@, area_id, n);
                    lemma_walk_length_unique(areas@, area_id, chosen, steps);
                }
                return area_id;
            },
            Some(area) => {
                if area.parent_id == 0 || visited.contains(&current) {
                    proof {
                        assert(is_walk_length(areas@, area_id, steps));
                        let chosen = choose|n: nat| is_walk_length(areas@, area_id, n);
                        lemma_walk_length_unique(areas@, area_id, chosen, steps);
                    }
                    return current;
                }
                proof {
                    assert(!walk_stops(areas@, area_id, steps));
                    vstd::set_lib::lemma_len_subset(visited@.insert(current), areas@.dom());
                }
                visited.insert(current);
                current = area.parent_id;
                proof {
                    steps = steps + 1;
                }
            },
        }
    }
}

} // verus!
