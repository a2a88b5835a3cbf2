//! Greedy coloring of the region graph.

use crate::areas::parent_of;
use crate::areas::AreaInfo;
use crate::graph::is_undirected;
use crate::graph::neighbors_of;
use crate::graph::NeighborGraph;
use std::collections::BTreeSet;
use std::collections::HashMap;
use vstd::prelude::*;
use vstd::std_specs::btree::*;
use vstd::std_specs::hash::*;
use vstd::std_specs::iter::IteratorSpec;

verus! {

broadcast use {group_hash_axioms, group_btree_axioms};

/// Number of entries in the fixed palette.
pub const PALETTE_SIZE: usize = 16;

/// The color given to one region.
#[derive(Clone, Copy, Debug, PartialEq, Eq, Structural)]
pub enum ColorChoice {
    /// The entry of the fixed palette at this index.
    Palette(usize),
    /// A color derived from the region id given here, used when every
    /// palette entry is taken.
    Generated(u32),
}

impl ColorChoice {
    /// Whether this color can be the color of `region`: a palette color
    /// names an entry of the palette, and a generated color is made from the
    /// id of the region that holds it.
    pub open spec fn fits(self, region: u32) -> bool {
        match self {
            ColorChoice::Palette(slot) => slot < PALETTE_SIZE,
            ColorChoice::Generated(seed) => seed == region,
        }
    }
}

/// How many regions touch `a`.
pub open spec fn degree(edges: Set<(u32, u32)>, a: u32) -> nat {
    neighbors_of(edges, a).len()
}

/// Whether `a` is colored before `b`: regions with more neighbors come
/// first, and among regions with equally many the lower id comes first.
pub open spec fn colored_before(edges: Set<(u32, u32)>, a: u32, b: u32) -> bool {
    degree(edges, a) > degree(edges, b) || (degree(edges, a) == degree(edges, b) && a < b)
}

/// Whether `order` lists the real regions of `regions`, each once, in the
/// order in which they are colored.
pub open spec fn is_coloring_order(
    order: Seq<u32>,
    regions: Set<u32>,
    edges: Set<(u32, u32)>,
) -> bool {
    &&& forall|i: int, j: int|
        0 <= i < j < order.len() ==> colored_before(edges, #[trigger] order[i], #[trigger] order[j])
    &&& forall|r: u32| #[trigger] order.contains(r) <==> regions.contains(r) && r != 0
}

/// The order in which the regions of `regions` are colored.
pub open spec fn coloring_sequence(regions: Set<u32>, edges: Set<(u32, u32)>) -> Seq<u32> {
    choose|order: Seq<u32>| is_coloring_order(order, regions, edges)
}

/// There is at most one order in which a set of regions is colored.
pub proof fn lemma_coloring_order_unique(
    first: Seq<u32>,
    second: Seq<u32>,
    regions: Set<u32>,
    edges: Set<(u32, u32)>,
)
    requires
        is_coloring_order(first, regions, edges),
        is_coloring_order(second, regions, edges),
    ensures
        first == second,
    decreases first.len(),
{
    if first.len() == 0 {
        if second.len() > 0 {
            assert(second.contains(second[0]));
            assert(first.contains(second[0]));
        }
        assert(first =~= second);
    } else {
        let a = first.last();
        assert(first.contains(a));
        assert(second.contains(a));
        assert(second.len() > 0);
        let b = second.last();
        assert(second.contains(b));
        assert(first.contains(b));
        let ia = choose|i: int| 0 <= i < second.len() && second[i] == a;
        let ib = choose|i: int| 0 <= i < first.len() && first[i] == b;
        // `a` is last in `first` and `b` is last in `second`, so neither is
        // colored before the other: they are the same region.
        if a != b {
            assert(ib < first.len() - 1);
            assert(colored_before(edges, first[ib], first[first.len() - 1]));
            assert(ia < second.len() - 1);
            assert(colored_before(edges, second[ia], second[second.len() - 1]));
        }
        assert(a == b);
        let rest = regions.remove(a);
        let f = first.drop_last();
        let s = second.drop_last();
        assert forall|r: u32| #[trigger] f.contains(r) <==> rest.contains(r) && r != 0 by {
            if f.contains(r) {
                let i = choose|i: int| 0 <= i < f.len() && f[i] == r;
                assert(first[i] == r);
                assert(first.contains(r));
                assert(colored_before(edges, first[i], first[first.len() - 1]));
            }
            if rest.contains(r) && r != 0 {
                assert(first.contains(r));
                let i = choose|i: int| 0 <= i < first.len() && first[i] == r;
                assert(f[i] == r);
            }
        }
        assert forall|r: u32| #[trigger] s.contains(r) <==> rest.contains(r) && r != 0 by {
            if s.contains(r) {
                let i = choose|i: int| 0 <= i < s.len() && s[i] == r;
                assert(second[i] == r);
                assert(second.contains(r));
                assert(colored_before(edges, second[i], second[second.len() - 1]));
            }
            if rest.contains(r) && r != 0 {
                assert(second.contains(r));
                let i = choose|i: int| 0 <= i < second.len() && second[i] == r;
                assert(s[i] == r);
            }
        }
        assert(is_coloring_order(f, rest, edges));
        assert(is_coloring_order(s, rest, edges));
        lemma_coloring_order_unique(f, s, rest, edges);
        assert(first =~= f.push(a));
        assert(second =~= s.push(b));
    }
}

/// Among finitely many regions there is one that is colored after all the others.
proof fn lemma_last_colored(regions: Set<u32>, edges: Set<(u32, u32)>) -> (last: u32)
    requires
        regions.finite(),
        regions.len() > 0,
    ensures
        regions.contains(last),
        forall|r: u32| regions.contains(r) && r != last ==> colored_before(edges, r, last),
    decreases regions.len(),
{
    let picked = regions.choose();
    let others = regions.remove(picked);
    if others.len() == 0 {
        assert forall|r: u32| regions.contains(r) && r != picked implies colored_before(
            edges,
            r,
            picked,
        ) by {
            assert(others.contains(r));
        }
        picked
    } else {
        let last = lemma_last_colored(others, edges);
        if colored_before(edges, picked, last) {
            assert forall|r: u32| regions.contains(r) && r != last implies colored_before(
                edges,
                r,
                last,
            ) by {
                if r != picked {
                    assert(others.contains(r));
                }
            }
            last
        } else {
            assert forall|r: u32| regions.contains(r) && r != picked implies colored_before(
                edges,
                r,
                picked,
            ) by {
                assert(others.contains(r));
                if r != last {
                    assert(colored_before(edges, r, last));
                }
            }
            picked
        }
    }
}

/// Finitely many regions can always be put in the order in which they are colored.
pub proof fn lemma_coloring_order_exists(regions: Set<u32>, edges: Set<(u32, u32)>) -> (order: Seq<
    u32,
>)
    requires
        regions.finite(),
    ensures
        is_coloring_order(order, regions, edges),
        is_coloring_order(coloring_sequence(regions, edges), regions, edges),
    decreases regions.len(),
{
    let wanted = regions.remove(0);
    let order = if wanted.len() == 0 {
        let order = Seq::<u32>::empty();
        assert forall|r: u32| #[trigger] order.contains(r) <==> regions.contains(r) && r
            != 0 by {
            if regions.contains(r) && r != 0 {
                assert(wanted.contains(r));
            }
        }
        order
    } else {
        let last = lemma_last_colored(wanted, edges);
        let earlier = lemma_coloring_order_exists(regions.remove(last), edges);
        let order = earlier.push(last);
        assert forall|i: int, j: int| 0 <= i < j < order.len() implies colored_before(
            edges,
            #[trigger] order[i],
            #[trigger] order[j],
        ) by {
            if j == order.len() - 1 {
                assert(earlier.contains(earlier[i]));
                assert(wanted.contains(earlier[i]));
            } else {
                assert(order[i] == earlier[i] && order[j] == earlier[j]);
            }
        }
        assert forall|r: u32| #[trigger] order.contains(r) <==> regions.contains(r) && r
            != 0 by {
            if order.contains(r) {
                let i = choose|i: int| 0 <= i < order.len() && order[i] == r;
                if i < earlier.len() {
                    assert(earlier[i] == r);
                    assert(earlier.contains(r));
                }
            }
            if regions.contains(r) && r != 0 {
                if r == last {
                    assert(order[order.len() - 1] == r);
                } else {
                    assert(earlier.contains(r));
                    let i = choose|i: int| 0 <= i < earlier.len() && earlier[i] == r;
                    assert(order[i] == r);
                }
            }
        }
        order
    };
    assert(is_coloring_order(order, regions, edges));
    order
}

/// Whether `region` has been given the palette entry `slot`.
pub open spec fn holds_slot(colors: Map<u32, ColorChoice>, region: u32, slot: int) -> bool {
    &&& colors.contains_key(region)
    &&& colors[region] matches ColorChoice::Palette(held)
    &&& held == slot
}

/// Whether some neighbor of `region` holds the palette entry `slot`.
pub open spec fn held_by_neighbor(
    colors: Map<u32, ColorChoice>,
    edges: Set<(u32, u32)>,
    region: u32,
    slot: int,
) -> bool {
    exists|n: u32| edges.contains((region, n)) && #[trigger] holds_slot(colors, n, slot)
}

/// Whether `region` may not take the palette entry `slot`: a neighbor of
/// `region` or its parent `parent` already holds it.
pub open spec fn is_excluded(
    colors: Map<u32, ColorChoice>,
    edges: Set<(u32, u32)>,
    parent: u32,
    region: u32,
    slot: int,
) -> bool {
    holds_slot(colors, parent, slot) || held_by_neighbor(colors, edges, region, slot)
}

/// For each palette entry, whether `region` may not take it.
pub open spec fn excluded_flags(
    colors: Map<u32, ColorChoice>,
    edges: Set<(u32, u32)>,
    parent: u32,
    region: u32,
) -> Seq<bool> {
    Seq::new(PALETTE_SIZE as nat, |slot: int| is_excluded(colors, edges, parent, region, slot))
}

/// Whether `slot` is the lowest palette entry that `flags` leaves free.
pub open spec fn is_lowest_free(flags: Seq<bool>, slot: int) -> bool {
    &&& 0 <= slot < flags.len()
    &&& !flags[slot]
    &&& forall|lower: int| 0 <= lower < slot ==> flags[lower]
}

/// The color of a region given the palette entries it may not take: the
/// lowest free entry, or a color generated from the region id when no entry
/// is free.
pub open spec fn choice_from(flags: Seq<bool>, region: u32) -> ColorChoice {
    if exists|slot: int| is_lowest_free(flags, slot) {
        ColorChoice::Palette((choose|slot: int| is_lowest_free(flags, slot)) as usize)
    } else {
        ColorChoice::Generated(region)
    }
}

/// The colors held once the regions of `order` have been colored one after
/// the other, each against the colors of those before it.
pub open spec fn coloring_after(
    order: Seq<u32>,
    edges: Set<(u32, u32)>,
    areas: Map<u32, AreaInfo>,
) -> Map<u32, ColorChoice>
    decreases order.len(),
{
    if order.len() == 0 {
        Map::empty()
    } else {
        let earlier = coloring_after(order.drop_last(), edges, areas);
        let region = order.last();
        let flags = excluded_flags(earlier, edges, parent_of(areas, region), region);
        earlier.insert(region, choice_from(flags, region))
    }
}

/// The color of every real region of `regions`.
pub open spec fn greedy_coloring(
    regions: Set<u32>,
    edges: Set<(u32, u32)>,
    areas: Map<u32, AreaInfo>,
) -> Map<u32, ColorChoice> {
    coloring_after(coloring_sequence(regions, edges), edges, areas)
}

/// The lowest free palette entry, where there is one, is unique, and the
/// color chosen is that entry.
pub proof fn lemma_choice_is_lowest_free(flags: Seq<bool>, region: u32, slot: int)
    requires
        is_lowest_free(flags, slot),
    ensures
        choice_from(flags, region) == ColorChoice::Palette(slot as usize),
{
    let chosen = choose|free: int| is_lowest_free(flags, free);
    assert(chosen == slot);
}

/// Exactly the regions of `order` are colored, each with a color that fits it.
pub proof fn lemma_coloring_covers_order(
    order: Seq<u32>,
    edges: Set<(u32, u32)>,
    areas: Map<u32, AreaInfo>,
)
    ensures
        forall|r: u32| #[trigger]
            coloring_after(order, edges, areas).contains_key(r) <==> order.contains(r),
        forall|r: u32| #[trigger]
            coloring_after(order, edges, areas).contains_key(r) ==> coloring_after(
                order,
                edges,
                areas,
            )[r].fits(r),
    decreases order.len(),
{
    let colors = coloring_after(order, edges, areas);
    if order.len() == 0 {
        assert forall|r: u32| #[trigger] colors.contains_key(r) <==> order.contains(r) by {}
    } else {
        let init = order.drop_last();
        let region = order.last();
        let earlier = coloring_after(init, edges, areas);
        lemma_coloring_covers_order(init, edges, areas);
        let flags = excluded_flags(earlier, edges, parent_of(areas, region), region);
        assert(colors == earlier.insert(region, choice_from(flags, region)));
        assert forall|r: u32| #[trigger] colors.contains_key(r) <==> order.contains(r) by {
            if order.contains(r) {
                let i = choose|i: int| 0 <= i < order.len() && order[i] == r;
                if i < order.len() - 1 {
                    assert(init[i] == r);
                    assert(init.contains(r));
                }
            }
            if init.contains(r) {
                let i = choose|i: int| 0 <= i < init.len() && init[i] == r;
                assert(order[i] == r);
            }
            assert(order[order.len() - 1] == region);
        }
    }
}

/// A region keeps the color it was given: coloring further regions, none of
/// which is `r`, leaves the color of `r` as it was.
pub proof fn lemma_color_is_kept(
    order: Seq<u32>,
    edges: Set<(u32, u32)>,
    areas: Map<u32, AreaInfo>,
    upto: int,
    r: u32,
)
    requires
        order.no_duplicates(),
        0 <= upto <= order.len(),
        order.take(upto).contains(r),
    ensures
        coloring_after(order, edges, areas).contains_key(r),
        coloring_after(order, edges, areas)[r] == coloring_after(order.take(upto), edges, areas)[r],
    decreases order.len() - upto,
{
    lemma_coloring_covers_order(order.take(upto), edges, areas);
    if upto == order.len() {
        assert(order.take(upto) =~= order);
    } else {
        let next = order.take(upto + 1);
        assert(next.drop_last() =~= order.take(upto));
        assert(next.last() == order[upto]);
        let i = choose|i: int| 0 <= i < upto && order.take(upto)[i] == r;
        assert(order[i] == r);
        assert(order[upto] != r);
        assert(next[i] == r);
        assert(next.contains(r));
        lemma_color_is_kept(order, edges, areas, upto + 1, r);
    }
}

/// Two regions that touch never hold the same palette entry.
///
/// This holds of every order without repetition in which the regions are
/// colored, as long as the graph is undirected.
pub proof fn lemma_neighbors_differ(
    order: Seq<u32>,
    edges: Set<(u32, u32)>,
    areas: Map<u32, AreaInfo>,
    a: u32,
    b: u32,
    slot_a: usize,
    slot_b: usize,
)
    requires
        order.no_duplicates(),
        is_undirected(edges),
        edges.contains((a, b)),
        coloring_after(order, edges, areas).contains_key(a),
        coloring_after(order, edges, areas).contains_key(b),
        coloring_after(order, edges, areas)[a] == ColorChoice::Palette(slot_a),
        coloring_after(order, edges, areas)[b] == ColorChoice::Palette(slot_b),
    ensures
        slot_a != slot_b,
    decreases order.len(),
{
    lemma_coloring_covers_order(order, edges, areas);
    assert(order.len() > 0) by {
        if order.len() == 0 {
            assert(!order.contains(a));
        }
    }
    let init = order.drop_last();
    let region = order.last();
    let earlier = coloring_after(init, edges, areas);
    let flags = excluded_flags(earlier, edges, parent_of(areas, region), region);
    lemma_coloring_covers_order(init, edges, areas);
    assert(!init.contains(region)) by {
        if init.contains(region) {
            let i = choose|i: int| 0 <= i < init.len() && init[i] == region;
            assert(order[i] == order[order.len() - 1]);
        }
    }
    assert(edges.contains((b, a)));
    if a == region || b == region {
        // `last` is the later of the two and `other` was colored before it.
        let other = if a == region { b } else { a };
        let slot_last = if a == region { slot_a } else { slot_b };
        let slot_other = if a == region { slot_b } else { slot_a };
        assert(other != region);
        assert(earlier.contains_key(other));
        assert(earlier[other] == ColorChoice::Palette(slot_other));
        assert(holds_slot(earlier, other, slot_other as int));
        assert(held_by_neighbor(earlier, edges, region, slot_other as int));
        assert(flags[slot_other as int]);
        assert(choice_from(flags, region) == ColorChoice::Palette(slot_last));
        let free = choose|free: int| is_lowest_free(flags, free);
        assert(is_lowest_free(flags, free));
        assert(free == slot_last);
    } else {
        assert(init.no_duplicates());
        lemma_neighbors_differ(init, edges, areas, a, b, slot_a, slot_b);
    }
}

/// A region never holds the palette entry of its parent if the parent was
/// colored before it.
pub proof fn lemma_parent_differs(
    order: Seq<u32>,
    edges: Set<(u32, u32)>,
    areas: Map<u32, AreaInfo>,
    parent_at: int,
    child_at: int,
    slot_parent: usize,
    slot_child: usize,
)
    requires
        order.no_duplicates(),
        0 <= parent_at < child_at < order.len(),
        order[parent_at] == parent_of(areas, order[child_at]),
        coloring_after(order, edges, areas)[order[parent_at]] == ColorChoice::Palette(slot_parent),
        coloring_after(order, edges, areas)[order[child_at]] == ColorChoice::Palette(slot_child),
    ensures
        slot_parent != slot_child,
{
    let parent = order[parent_at];
    let child = order[child_at];
    let upto = order.take(child_at + 1);
    let init = order.take(child_at);
    assert(upto.drop_last() =~= init);
    assert(upto.last() == child);
    assert(init[parent_at] == parent);
    assert(init.contains(parent));
    assert(upto[parent_at] == parent && upto[child_at] == child);
    assert(upto.contains(parent) && upto.contains(child));
    lemma_color_is_kept(order, edges, areas, child_at, parent);
    lemma_color_is_kept(order, edges, areas, child_at + 1, child);
    lemma_coloring_covers_order(init, edges, areas);
    lemma_coloring_covers_order(order, edges, areas);
    let earlier = coloring_after(init, edges, areas);
    let flags = excluded_flags(earlier, edges, parent, child);
    assert(holds_slot(earlier, parent, slot_parent as int));
    assert(flags[slot_parent as int]);
    assert(choice_from(flags, child) == ColorChoice::Palette(slot_child));
    let free = choose|free: int| is_lowest_free(flags, free);
    assert(is_lowest_free(flags, free));
    assert(free == slot_child);
}

/// Whether no two regions that touch hold the same palette entry in `colors`.
pub open spec fn is_valid_coloring(colors: Map<u32, ColorChoice>, edges: Set<(u32, u32)>) -> bool {
    forall|a: u32, b: u32|
        #[trigger] edges.contains((a, b)) && colors.contains_key(a) && colors.contains_key(b)
            && colors[a] is Palette ==> colors[a] != colors[b]
}

/// Whether `region` and its parent do not hold the same palette entry in `colors`.
pub open spec fn differs_from_parent(
    colors: Map<u32, ColorChoice>,
    areas: Map<u32, AreaInfo>,
    region: u32,
) -> bool {
    let parent = parent_of(areas, region);
    colors.contains_key(region) && colors.contains_key(parent) && colors[region] is Palette
        ==> colors[region] != colors[parent]
}

/// Coloring an undirected graph never gives two regions that touch the same
/// palette entry. Colors generated from a region id are outside this rule.
pub proof fn lemma_greedy_coloring_is_valid(
    regions: Set<u32>,
    edges: Set<(u32, u32)>,
    areas: Map<u32, AreaInfo>,
)
    requires
        regions.finite(),
        is_undirected(edges),
    ensures
        is_valid_coloring(greedy_coloring(regions, edges, areas), edges),
{
    lemma_coloring_order_exists(regions, edges);
    let order = coloring_sequence(regions, edges);
    let colors = greedy_coloring(regions, edges, areas);
    assert forall|a: u32, b: u32|
        #[trigger] edges.contains((a, b)) && colors.contains_key(a) && colors.contains_key(b)
            && colors[a] is Palette implies colors[a] != colors[b] by {
        if colors[b] is Palette {
            lemma_neighbors_differ(
                order,
                edges,
                areas,
                a,
                b,
                colors[a]->Palette_0,
                colors[b]->Palette_0,
            );
        }
    }
}

/// A region whose parent is colored before it never gets the palette entry
/// of its parent.
pub proof fn lemma_greedy_coloring_respects_parent(
    regions: Set<u32>,
    edges: Set<(u32, u32)>,
    areas: Map<u32, AreaInfo>,
    region: u32,
)
    requires
        regions.finite(),
        colored_before(edges, parent_of(areas, region), region),
    ensures
        differs_from_parent(greedy_coloring(regions, edges, areas), areas, region),
{
    lemma_coloring_order_exists(regions, edges);
    let order = coloring_sequence(regions, edges);
    let colors = greedy_coloring(regions, edges, areas);
    let parent = parent_of(areas, region);
    lemma_coloring_covers_order(order, edges, areas);
    if colors.contains_key(region) && colors.contains_key(parent) && colors[region] is Palette
        && colors[parent] is Palette {
        let child_at = choose|i: int| 0 <= i < order.len() && order[i] == region;
        let parent_at = choose|i: int| 0 <= i < order.len() && order[i] == parent;
        if child_at < parent_at {
            assert(colored_before(edges, order[child_at], order[parent_at]));
        }
        lemma_parent_differs(
            order,
            edges,
            areas,
            parent_at,
            child_at,
            colors[parent]->Palette_0,
            colors[region]->Palette_0,
        );
    }
}

/// Whether `a` is colored before `b`.
fn comes_before(graph: &NeighborGraph, a: u32, b: u32) -> (before: bool)
    requires
        graph.wf(),
    ensures
        before == colored_before(graph@, a, b),
{
    let count_a = graph.neighbor_count(a);
    let count_b = graph.neighbor_count(b);
    count_a > count_b || (count_a == count_b && a < b)
}

/// Lists the regions to color in the order in which they are colored:
/// by falling number of neighbors, and by rising id among equals. Region 0
/// is left out.
pub fn coloring_order(found_areas: &BTreeSet<u32>, graph: &NeighborGraph) -> (order: Vec<u32>)
    requires
        graph.wf(),
    ensures
        is_coloring_order(order@, found_areas@, graph@),
        order@ == coloring_sequence(found_areas@, graph@),
{
    let mut order: Vec<u32> = Vec::new();
    let ghost all: Seq<u32> = spec_btree_keys_iter(found_areas).remaining().unref();
    let ghost mut done: int = 0;
    for area in it: found_areas.iter()
        invariant
            graph.wf(),
            all.no_duplicates(),
            all.to_set() == found_areas@,
            it.seq().unref() == all,
            it.seq().len() == all.len(),
            done == it.index(),
            forall|i: int, j: int|
                0 <= i < j < order@.len() ==> colored_before(
                    graph@,
                    #[trigger] order@[i],
                    #[trigger] order@[j],
                ),
            forall|r: u32| #[trigger]
                order@.contains(r) <==> r != 0 && exists|k: int|
                    0 <= k < done && #[trigger] all[k] == r,
    {
        let area = *area;
        let ghost before = order@;
        assert(all[done] == area);
        assert forall|r: u32| #[trigger] before.contains(r) implies r != area by {
            let k = choose|k: int| 0 <= k < done && #[trigger] all[k] == r;
            assert(all[k] != all[done]);
        }
        if area != 0 {
            let mut pos: usize = 0;
            while pos < order.len() && comes_before(graph, order[pos], area)
                invariant
                    graph.wf(),
                    pos <= order@.len(),
                    forall|i: int| 0 <= i < pos ==> colored_before(graph@, #[trigger] order@[i], area),
                decreases order@.len() - pos,
            {
                pos += 1;
            }
            order.insert(pos, area);
            proof {
                let after = order@;
                assert(after == before.insert(pos as int, area));
                if pos < before.len() {
                    assert(before.contains(before[pos as int]));
                    assert(colored_before(graph@, area, before[pos as int]));
                }
                assert forall|i: int, j: int| 0 <= i < j < after.len() implies colored_before(
                    graph@,
                    #[trigger] after[i],
                    #[trigger] after[j],
                ) by {
                    if j < pos {
                        assert(after[i] == before[i] && after[j] == before[j]);
                    } else if j == pos {
                        assert(after[i] == before[i]);
                    } else if i < pos {
                        assert(after[i] == before[i] && after[j] == before[j - 1]);
                    } else if i == pos {
                        assert(after[j] == before[j - 1]);
                        assert(before.contains(before[j - 1]));
                        if pos < j - 1 {
                            assert(colored_before(graph@, before[pos as int], before[j - 1]));
                        }
                    } else {
                        assert(after[i] == before[i - 1] && after[j] == before[j - 1]);
                    }
                }
                assert forall|r: u32| #[trigger] after.contains(r) <==> r != 0 && exists|k: int|
                    0 <= k < done + 1 && #[trigger] all[k] == r by {
                    if after.contains(r) {
                        let i = choose|i: int| 0 <= i < after.len() && after[i] == r;
                        if i < pos {
                            assert(before[i] == r);
                            assert(before.contains(r));
                        } else if i > pos {
                            assert(before[i - 1] == r);
                            assert(before.contains(r));
                        } else {
                            assert(all[done] == r);
                        }
                    }
                    if r != 0 && exists|k: int| 0 <= k < done + 1 && #[trigger] all[k] == r {
                        let k = choose|k: int| 0 <= k < done + 1 && #[trigger] all[k] == r;
                        if k < done {
                            assert(before.contains(r));
                            let i = choose|i: int| 0 <= i < before.len() && before[i] == r;
                            if i < pos {
                                assert(after[i] == r);
                            } else {
                                assert(after[i + 1] == r);
                            }
                        } else {
                            assert(after[pos as int] == r);
                        }
                    }
                }
            }
        }
        proof {
            done = done + 1;
        }
    }
    proof {
        assert(done == all.len());
        assert forall|r: u32| #[trigger] order@.contains(r) <==> found_areas@.contains(r) && r
            != 0 by {
            if order@.contains(r) {
                let k = choose|k: int| 0 <= k < done && #[trigger] all[k] == r;
                assert(all.contains(r));
            }
            if found_areas@.contains(r) && r != 0 {
                assert(all.to_set().contains(r));
                assert(all.contains(r));
                let k = choose|k: int| 0 <= k < all.len() && all[k] == r;
                assert(all[k] == r);
            }
        }
        assert(is_coloring_order(order@, found_areas@, graph@));
        let chosen = coloring_sequence(found_areas@, graph@);
        lemma_coloring_order_unique(chosen, order@, found_areas@, graph@);
    }
    order
}

/// Works out which palette entries `region` may not take: those held by its
/// neighbors and the one held by its parent, as far as they are colored.
pub fn excluded_slots(
    region: u32,
    graph: &NeighborGraph,
    areas: &HashMap<u32, AreaInfo>,
    colors: &HashMap<u32, ColorChoice>,
) -> (taken: [bool; PALETTE_SIZE])
    requires
        graph.wf(),
    ensures
        taken@ == excluded_flags(colors@, graph@, parent_of(areas@, region), region),
{
    let mut taken: [bool; PALETTE_SIZE] = [false; PALETTE_SIZE];
    match graph.neighbor_set(region) {
        Some(set) => {
            let ghost all: Seq<u32> = spec_hash_keys_iter(set).remaining().unref();
            let ghost mut done: int = 0;
            for n in it: set.iter()
                invariant
                    all.to_set() == set@,
                    it.seq().unref() == all,
                    it.seq().len() == all.len(),
                    done == it.index(),
                    forall|slot: int|
                        0 <= slot < PALETTE_SIZE ==> (#[trigger] taken@[slot] <==> exists|k: int|
                            0 <= k < done && #[trigger] holds_slot(colors@, all[k], slot)),
            {
                assert(all[done] == *n);
                match colors.get(n) {
                    Some(ColorChoice::Palette(slot)) => {
                        if *slot < PALETTE_SIZE {
                            taken[*slot] = true;
                            assert(holds_slot(colors@, all[done], *slot as int));
                        }
                    },
                    _ => {},
                }
                proof {
                    done = done + 1;
                }
            }
            assert forall|slot: int| 0 <= slot < PALETTE_SIZE implies (#[trigger] taken@[slot]
                <==> held_by_neighbor(colors@, graph@, region, slot)) by {
                if taken@[slot] {
                    let k = choose|k: int|
                        0 <= k < done && #[trigger] holds_slot(colors@, all[k], slot);
                    assert(all.contains(all[k]));
                    assert(neighbors_of(graph@, region).contains(all[k]));
                }
                if held_by_neighbor(colors@, graph@, region, slot) {
                    let n = choose|n: u32|
                        graph@.contains((region, n)) && #[trigger] holds_slot(colors@, n, slot);
                    assert(neighbors_of(graph@, region).contains(n));
                    assert(all.to_set().contains(n));
                    let k = choose|k: int| 0 <= k < all.len() && all[k] == n;
                    assert(holds_slot(colors@, all[k], slot));
                }
            }
        },
        None => {
            assert forall|slot: int| 0 <= slot < PALETTE_SIZE implies (#[trigger] taken@[slot]
                <==> held_by_neighbor(colors@, graph@, region, slot)) by {
                if held_by_neighbor(colors@, graph@, region, slot) {
                    let n = choose|n: u32|
                        graph@.contains((region, n)) && #[trigger] holds_slot(colors@, n, slot);
                    assert(neighbors_of(graph@, region).contains(n));
                }
            }
        },
    }
    let parent = match areas.get(&region) {
        Some(area) => area.parent_id,
        None => 0,
    };
    match colors.get(&parent) {
        Some(ColorChoice::Palette(slot)) => {
            if *slot < PALETTE_SIZE {
                taken[*slot] = true;
            }
        },
        _ => {},
    }
    assert(taken@ =~= excluded_flags(colors@, graph@, parent, region));
    taken
}

/// Picks the color of `region` given the palette entries it may not take.
pub fn assign_color(region: u32, taken: &[bool; PALETTE_SIZE]) -> (choice: ColorChoice)
    ensures
        choice == choice_from(taken@, region),
{
    let mut slot: usize = 0;
    while slot < PALETTE_SIZE
        invariant
            slot <= PALETTE_SIZE,
            forall|lower: int| 0 <= lower < slot ==> taken@[lower],
        decreases PALETTE_SIZE - slot,
    {
        if !taken[slot] {
            proof {
                lemma_choice_is_lowest_free(taken@, region, slot as int);
            }
            return ColorChoice::Palette(slot);
        }
        slot += 1;
    }
    ColorChoice::Generated(region)
}

/// Colors every real region of `found_areas`.
///
/// Regions are taken in the order of `coloring_order`. Each gets the lowest
/// palette entry that none of its already colored neighbors holds and that
/// its parent, if already colored, does not hold. A region for which no entry
/// is left gets a color generated from its id.
pub fn generate_colors_with_graph(
    found_areas: &BTreeSet<u32>,
    neighbors: &NeighborGraph,
    areas: &HashMap<u32, AreaInfo>,
) -> (colors: HashMap<u32, ColorChoice>)
    requires
        neighbors.wf(),
    ensures
        colors@ == greedy_coloring(found_areas@, neighbors@, areas@),
        colors@.dom() == found_areas@.remove(0),
        forall|r: u32| #[trigger] colors@.contains_key(r) ==> colors@[r].fits(r),
        is_valid_coloring(colors@, neighbors@),
{
    let order = coloring_order(found_areas, neighbors);
    let mut colors: HashMap<u32, ColorChoice> = HashMap::new();
    let mut at: usize = 0;
    assert(order@.take(0) =~= Seq::<u32>::empty());
    while at < order.len()
        invariant
            neighbors.wf(),
            at <= order@.len(),
            colors@ == coloring_after(order@.take(at as int), neighbors@, areas@),
        decreases order@.len() - at,
    {
        let region = order[at];
        let taken = excluded_slots(region, neighbors, areas, &colors);
        let choice = assign_color(region, &taken);
        colors.insert(region, choice);
        proof {
            let next = order@.take(at + 1);
            assert(next.drop_last() =~= order@.take(at as int));
            assert(next.last() == region);
        }
        at += 1;
    }
    proof {
        assert(order@.take(at as int) =~= order@);
        lemma_coloring_covers_order(order@, neighbors@, areas@);
        assert(colors@.dom() =~= found_areas@.remove(0));
        assert(found_areas@.finite()) by {
            assert(found_areas@ =~= colors@.dom().union(found_areas@.intersect(set![0u32])));
        }
        lemma_greedy_coloring_is_valid(found_areas@, neighbors@, areas@);
    }
    colors
}

} // verus!
