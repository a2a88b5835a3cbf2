//! Building the region graph from tiles: regions touch where their cells do,
//! inside one tile and across the border between two tiles.

use crate::graph::add_neighbor;
use crate::graph::is_edge;
use crate::graph::with_edge;
use crate::graph::NeighborGraph;
use std::collections::HashMap;
use vstd::prelude::*;
use vstd::std_specs::hash::*;
use vstd::std_specs::iter::IteratorSpec;

verus! {

broadcast use group_hash_axioms;

/// Whether cells `i` and `j` of one tile share a side, `i` being the left or
/// the upper one of the two.
pub open spec fn cells_touch(i: int, j: int) -> bool {
    0 <= i && j < 256 && ((j == i + 1 && i % 16 != 15) || j == i + 16)
}

/// Whether the regions `x` and `y` are `a` and `b`, in either order.
pub open spec fn is_pair(x: u32, y: u32, a: u32, b: u32) -> bool {
    (x == a && y == b) || (x == b && y == a)
}

/// Whether `a` and `b` are the regions of cells `i` and `j` of the tile,
/// two cells that share a side.
pub open spec fn touch_at(ids: Seq<u32>, i: int, j: int, a: u32, b: u32) -> bool {
    cells_touch(i, j) && is_pair(ids[i], ids[j], a, b)
}

/// Whether `a` and `b` are two distinct real regions with cells side by side,
/// the left cell lying before `across` or the upper cell lying before `down`.
spec fn touch_before(ids: Seq<u32>, across: int, down: int, a: u32, b: u32) -> bool {
    is_edge(a, b) && exists|i: int, j: int|
        #[trigger] touch_at(ids, i, j, a, b) && ((j == i + 1 && i < across) || (j == i + 16 && i
            < down))
}

/// The edges that a tile gives rise to when only the pairs of cells up to
/// `across` and `down` are looked at.
spec fn tile_edges_before(ids: Seq<u32>, across: int, down: int) -> Set<(u32, u32)> {
    Set::new(|p: (u32, u32)| touch_before(ids, across, down, p.0, p.1))
}

/// The edges that a tile gives rise to: one between every two distinct real
/// regions that hold cells side by side or one above the other.
pub open spec fn tile_edges(ids: Seq<u32>) -> Set<(u32, u32)> {
    Set::new(
        |p: (u32, u32)|
            is_edge(p.0, p.1) && exists|i: int, j: int| #[trigger] touch_at(ids, i, j, p.0, p.1),
    )
}

/// Looking at one more pair of cells adds the edge between their regions.
proof fn lemma_tile_edges_step(
    ids: Seq<u32>,
    across: int,
    down: int,
    next_across: int,
    next_down: int,
    i: int,
    j: int,
)
    requires
        cells_touch(i, j),
        (j == i + 1 && i == across && next_across == across + 1 && next_down == down) || (j == i
            + 16 && i == down && next_down == down + 1 && next_across == across),
    ensures
        tile_edges_before(ids, next_across, next_down) == with_edge(
            tile_edges_before(ids, across, down),
            ids[i],
            ids[j],
        ),
{
    let before = tile_edges_before(ids, across, down);
    let after = tile_edges_before(ids, next_across, next_down);
    let grown = with_edge(before, ids[i], ids[j]);
    assert forall|p: (u32, u32)| after.contains(p) <==> grown.contains(p) by {
        if after.contains(p) {
            let (k, l) = choose|k: int, l: int|
                #[trigger] touch_at(ids, k, l, p.0, p.1) && ((l == k + 1 && k < next_across) || (l
                    == k + 16 && k < next_down));
            if k == i && l == j {
                assert(p == (ids[i], ids[j]) || p == (ids[j], ids[i]));
            } else {
                assert(touch_at(ids, k, l, p.0, p.1));
                assert(before.contains(p));
            }
        }
        if grown.contains(p) {
            if before.contains(p) {
                let (k, l) = choose|k: int, l: int|
                    #[trigger] touch_at(ids, k, l, p.0, p.1) && ((l == k + 1 && k < across) || (l
                        == k + 16 && k < down));
                assert(touch_at(ids, k, l, p.0, p.1));
            } else {
                assert(touch_at(ids, i, j, p.0, p.1));
            }
        }
    }
    assert(after =~= grown);
}

/// Looking past a cell that is the left or upper cell of no pair adds nothing.
proof fn lemma_tile_edges_skip(ids: Seq<u32>, across: int, down: int, next_across: int, next_down: int)
    requires
        (next_across == across + 1 && next_down == down && (across % 16 == 15 || across >= 255
            || across < 0)) || (next_across == across && next_down == down + 1 && (down >= 240
            || down < 0)),
    ensures
        tile_edges_before(ids, next_across, next_down) == tile_edges_before(ids, across, down),
{
    let before = tile_edges_before(ids, across, down);
    let after = tile_edges_before(ids, next_across, next_down);
    assert forall|p: (u32, u32)| after.contains(p) <==> before.contains(p) by {
        if after.contains(p) {
            let (k, l) = choose|k: int, l: int|
                #[trigger] touch_at(ids, k, l, p.0, p.1) && ((l == k + 1 && k < next_across) || (l
                    == k + 16 && k < next_down));
            assert(touch_at(ids, k, l, p.0, p.1));
        }
        if before.contains(p) {
            let (k, l) = choose|k: int, l: int|
                #[trigger] touch_at(ids, k, l, p.0, p.1) && ((l == k + 1 && k < across) || (l == k
                    + 16 && k < down));
            assert(touch_at(ids, k, l, p.0, p.1));
        }
    }
    assert(after =~= before);
}

/// Adding an edge to a union of edge sets adds it to the second of them.
pub proof fn lemma_with_edge_union(
    first: Set<(u32, u32)>,
    second: Set<(u32, u32)>,
    a: u32,
    b: u32,
)
    ensures
        with_edge(first.union(second), a, b) == first.union(with_edge(second, a, b)),
{
    assert(with_edge(first.union(second), a, b) =~= first.union(with_edge(second, a, b)));
}

/// Records the adjacency inside one tile: every two cells that lie side by
/// side or one above the other join their regions.
pub fn find_tile_neighbors(area_ids: &[u32], graph: &mut NeighborGraph)
    requires
        area_ids@.len() == 256,
        old(graph).wf(),
    ensures
        final(graph).wf(),
        final(graph)@ == old(graph)@.union(tile_edges(area_ids@)),
{
    let ghost ids = area_ids@;
    let ghost start = graph@;
    assert(tile_edges_before(ids, 0, 0) =~= Set::<(u32, u32)>::empty());
    assert(start =~= start.union(tile_edges_before(ids, 0, 0)));
    // Cells side by side.
    for y in 0..16usize
        invariant
            ids == area_ids@,
            ids.len() == 256,
            graph.wf(),
            graph@ == start.union(tile_edges_before(ids, y * 16, 0)),
    {
        for x in 0..15usize
            invariant
                ids == area_ids@,
                ids.len() == 256,
                y < 16,
                graph.wf(),
                graph@ == start.union(tile_edges_before(ids, y * 16 + x, 0)),
        {
            let idx1 = y * 16 + x;
            let idx2 = y * 16 + x + 1;
            proof {
                lemma_tile_edges_step(ids, idx1 as int, 0, idx1 + 1, 0, idx1 as int, idx2 as int);
                lemma_with_edge_union(
                    start,
                    tile_edges_before(ids, idx1 as int, 0),
                    ids[idx1 as int],
                    ids[idx2 as int],
                );
            }
            add_neighbor(graph, area_ids[idx1], area_ids[idx2]);
        }
        proof {
            lemma_tile_edges_skip(ids, y * 16 + 15, 0, y * 16 + 16, 0);
        }
    }
    // Cells one above the other.
    for y in 0..15usize
        invariant
            ids == area_ids@,
            ids.len() == 256,
            graph.wf(),
            graph@ == start.union(tile_edges_before(ids, 256, y * 16)),
    {
        for x in 0..16usize
            invariant
                ids == area_ids@,
                ids.len() == 256,
                y < 15,
                graph.wf(),
                graph@ == start.union(tile_edges_before(ids, 256, y * 16 + x)),
        {
            let idx1 = y * 16 + x;
            let idx2 = (y + 1) * 16 + x;
            proof {
                lemma_tile_edges_step(ids, 256, idx1 as int, 256, idx1 + 1, idx1 as int, idx2 as int);
                lemma_with_edge_union(
                    start,
                    tile_edges_before(ids, 256, idx1 as int),
                    ids[idx1 as int],
                    ids[idx2 as int],
                );
            }
            add_neighbor(graph, area_ids[idx1], area_ids[idx2]);
        }
    }
    proof {
        // By now every pair of cells was looked at: no cell of the last row
        // is the upper cell of a pair.
        let found = tile_edges_before(ids, 256, 240);
        let whole = tile_edges(ids);
        assert forall|p: (u32, u32)| found.contains(p) <==> whole.contains(p) by {
            if whole.contains(p) {
                let (k, l) = choose|k: int, l: int| #[trigger] touch_at(ids, k, l, p.0, p.1);
                assert(touch_at(ids, k, l, p.0, p.1));
            }
            if found.contains(p) {
                let (k, l) = choose|k: int, l: int|
                    #[trigger] touch_at(ids, k, l, p.0, p.1) && ((l == k + 1 && k < 256) || (l == k
                        + 16 && k < 240));
                assert(touch_at(ids, k, l, p.0, p.1));
            }
        }
        assert(found =~= whole);
    }
}

/// The tiles of a continent as a map from tile key to the region ids of the tile.
pub open spec fn tile_map(tiles: Map<u32, Vec<u32>>) -> Map<u32, Seq<u32>> {
    Map::new(|key: u32| tiles.contains_key(key), |key: u32| tiles[key]@)
}

/// The key of the tile to the right of the tile `key`, or of the one below it.
pub open spec fn adjoining_key(key: u32, right: bool) -> int {
    if right {
        key + 1
    } else {
        key + 64
    }
}

/// The cell of a tile that lies at position `at` along its right border, or
/// along its bottom border.
pub open spec fn near_cell(right: bool, at: int) -> int {
    if right {
        at * 16 + 15
    } else {
        240 + at
    }
}

/// The cell of the adjoining tile that lies across the border from `near_cell`.
pub open spec fn far_cell(right: bool, at: int) -> int {
    if right {
        at * 16
    } else {
        at
    }
}

/// Whether the tile `key` has a tile to its right, or below it, so that the
/// two share the border position `at`.
pub open spec fn borders(tiles: Map<u32, Seq<u32>>, key: u32, right: bool, at: int) -> bool {
    &&& 0 <= at < 16
    &&& tiles.contains_key(key)
    &&& if right {
        key % 64 < 63
    } else {
        key / 64 < 63
    }
    &&& tiles.contains_key(adjoining_key(key, right) as u32)
}

/// Whether `a` and `b` are the regions of the two cells that face each other
/// at position `at` of the border between the tile `key` and the tile to its
/// right, or below it.
pub open spec fn meet_at(
    tiles: Map<u32, Seq<u32>>,
    key: u32,
    right: bool,
    at: int,
    a: u32,
    b: u32,
) -> bool {
    borders(tiles, key, right, at) && is_pair(
        tiles[key][near_cell(right, at)],
        tiles[adjoining_key(key, right) as u32][far_cell(right, at)],
        a,
        b,
    )
}

/// Whether the border position `at` of the tile `key` has been looked at:
/// the tiles of `done` are finished, and of the tile `current` the first
/// `rows` positions of the right border and the first `cols` positions of the
/// bottom border.
spec fn reached(
    done: Set<u32>,
    current: u32,
    rows: int,
    cols: int,
    key: u32,
    right: bool,
    at: int,
) -> bool {
    done.contains(key) || (key == current && if right {
        at < rows
    } else {
        at < cols
    })
}

/// The edges that the borders looked at so far give rise to.
spec fn border_edges_before(
    tiles: Map<u32, Seq<u32>>,
    done: Set<u32>,
    current: u32,
    rows: int,
    cols: int,
) -> Set<(u32, u32)> {
    Set::new(
        |p: (u32, u32)|
            is_edge(p.0, p.1) && exists|key: u32, right: bool, at: int|
                #[trigger] meet_at(tiles, key, right, at, p.0, p.1) && reached(
                    done,
                    current,
                    rows,
                    cols,
                    key,
                    right,
                    at,
                ),
    )
}

/// The edges that the borders between tiles give rise to: one between every
/// two distinct real regions whose cells face each other across the border of
/// two tiles that lie side by side or one above the other.
pub open spec fn border_edges(tiles: Map<u32, Seq<u32>>) -> Set<(u32, u32)> {
    Set::new(
        |p: (u32, u32)|
            is_edge(p.0, p.1) && exists|key: u32, right: bool, at: int|
                #[trigger] meet_at(tiles, key, right, at, p.0, p.1),
    )
}

/// Two states of progress that have looked at the same border positions have
/// found the same edges.
proof fn lemma_border_edges_same(
    tiles: Map<u32, Seq<u32>>,
    done: Set<u32>,
    current: u32,
    rows: int,
    cols: int,
    next_done: Set<u32>,
    next_current: u32,
    next_rows: int,
    next_cols: int,
)
    requires
        forall|key: u32, right: bool, at: int| #[trigger]
            borders(tiles, key, right, at) ==> (reached(done, current, rows, cols, key, right, at)
                <==> reached(next_done, next_current, next_rows, next_cols, key, right, at)),
    ensures
        border_edges_before(tiles, next_done, next_current, next_rows, next_cols)
            == border_edges_before(tiles, done, current, rows, cols),
{
    let before = border_edges_before(tiles, done, current, rows, cols);
    let after = border_edges_before(tiles, next_done, next_current, next_rows, next_cols);
    assert forall|p: (u32, u32)| after.contains(p) <==> before.contains(p) by {
        if after.contains(p) {
            let (key, right, at) = choose|key: u32, right: bool, at: int|
                #[trigger] meet_at(tiles, key, right, at, p.0, p.1) && reached(
                    next_done,
                    next_current,
                    next_rows,
                    next_cols,
                    key,
                    right,
                    at,
                );
            assert(borders(tiles, key, right, at));
            assert(meet_at(tiles, key, right, at, p.0, p.1));
        }
        if before.contains(p) {
            let (key, right, at) = choose|key: u32, right: bool, at: int|
                #[trigger] meet_at(tiles, key, right, at, p.0, p.1) && reached(
                    done,
                    current,
                    rows,
                    cols,
                    key,
                    right,
                    at,
                );
            assert(borders(tiles, key, right, at));
            assert(meet_at(tiles, key, right, at, p.0, p.1));
        }
    }
    assert(after =~= before);
}

/// Looking at one more border position adds the edge between the regions of
/// the two cells that face each other there.
proof fn lemma_border_edges_step(
    tiles: Map<u32, Seq<u32>>,
    done: Set<u32>,
    current: u32,
    rows: int,
    cols: int,
    right: bool,
)
    requires
        borders(tiles, current, right, if right { rows } else { cols }),
    ensures
        border_edges_before(
            tiles,
            done,
            current,
            if right { rows + 1 } else { rows },
            if right { cols } else { cols + 1 },
        ) == with_edge(
            border_edges_before(tiles, done, current, rows, cols),
            tiles[current][near_cell(right, if right { rows } else { cols })],
            tiles[adjoining_key(current, right) as u32][far_cell(right, if right { rows } else { cols })],
        ),
{
    let here = if right { rows } else { cols };
    let next_rows = if right { rows + 1 } else { rows };
    let next_cols = if right { cols } else { cols + 1 };
    let x = tiles[current][near_cell(right, here)];
    let y = tiles[adjoining_key(current, right) as u32][far_cell(right, here)];
    let before = border_edges_before(tiles, done, current, rows, cols);
    let after = border_edges_before(tiles, done, current, next_rows, next_cols);
    let grown = with_edge(before, x, y);
    assert forall|p: (u32, u32)| after.contains(p) <==> grown.contains(p) by {
        if after.contains(p) {
            let (key, side, at) = choose|key: u32, side: bool, at: int|
                #[trigger] meet_at(tiles, key, side, at, p.0, p.1) && reached(
                    done,
                    current,
                    next_rows,
                    next_cols,
                    key,
                    side,
                    at,
                );
            if key == current && side == right && at == here {
                assert(p == (x, y) || p == (y, x));
            } else {
                assert(meet_at(tiles, key, side, at, p.0, p.1));
                assert(reached(done, current, rows, cols, key, side, at));
                assert(before.contains(p));
            }
        }
        if grown.contains(p) {
            if before.contains(p) {
                let (key, side, at) = choose|key: u32, side: bool, at: int|
                    #[trigger] meet_at(tiles, key, side, at, p.0, p.1) && reached(
                        done,
                        current,
                        rows,
                        cols,
                        key,
                        side,
                        at,
                    );
                assert(meet_at(tiles, key, side, at, p.0, p.1));
            } else {
                assert(meet_at(tiles, current, right, here, p.0, p.1));
            }
        }
    }
    assert(after =~= grown);
}

/// Joins the regions of the cells that face each other across one border of
/// the tile `key`: its right border, or its bottom border.
fn join_border(
    tiles: &HashMap<u32, Vec<u32>>,
    key: u32,
    right: bool,
    graph: &mut NeighborGraph,
    Ghost(start): Ghost<Set<(u32, u32)>>,
    Ghost(done): Ghost<Set<u32>>,
)
    requires
        forall|k: u32| tiles@.contains_key(k) ==> (#[trigger] tiles@[k])@.len() == 256,
        tiles@.contains_key(key),
        old(graph).wf(),
        old(graph)@ == start.union(
            border_edges_before(tile_map(tiles@), done, key, if right { 0 } else { 16 }, 0),
        ),
    ensures
        final(graph).wf(),
        final(graph)@ == start.union(
            border_edges_before(tile_map(tiles@), done, key, 16, if right { 0 } else { 16 }),
        ),
{
    let ghost tm = tile_map(tiles@);
    let has_room = if right {
        key % 64 < 63
    } else {
        key / 64 < 63
    };
    if has_room {
        let other_key = if right {
            key + 1
        } else {
            key + 64
        };
        match (tiles.get(&key), tiles.get(&other_key)) {
            (Some(area_ids), Some(other_ids)) => {
                for at in 0..16usize
                    invariant
                        tm == tile_map(tiles@),
                        tiles@.contains_key(key),
                        tiles@.contains_key(other_key),
                        other_key == adjoining_key(key, right),
                        has_room,
                        has_room == if right {
                            key % 64 < 63
                        } else {
                            key / 64 < 63
                        },
                        *area_ids == tiles@[key],
                        *other_ids == tiles@[other_key],
                        area_ids@.len() == 256,
                        other_ids@.len() == 256,
                        graph.wf(),
                        graph@ == start.union(
                            border_edges_before(
                                tm,
                                done,
                                key,
                                if right { at as int } else { 16 },
                                if right { 0 } else { at as int },
                            ),
                        ),
                {
                    let near = if right {
                        at * 16 + 15
                    } else {
                        15 * 16 + at
                    };
                    let far = if right {
                        at * 16
                    } else {
                        at
                    };
                    proof {
                        let rows: int = if right { at as int } else { 16 };
                        let cols: int = if right { 0 } else { at as int };
                        assert(borders(tm, key, right, at as int));
                        lemma_border_edges_step(tm, done, key, rows, cols, right);
                        lemma_with_edge_union(
                            start,
                            border_edges_before(tm, done, key, rows, cols),
                            area_ids@[near as int],
                            other_ids@[far as int],
                        );
                    }
                    add_neighbor(graph, area_ids[near], other_ids[far]);
                }
            },
            _ => {
                proof {
                    assert(!tiles@.contains_key(other_key));
                    assert forall|k: u32, side: bool, at: int| #[trigger]
                        borders(tm, k, side, at) implies (reached(
                        done,
                        key,
                        if right { 0 } else { 16 },
                        0,
                        k,
                        side,
                        at,
                    ) <==> reached(done, key, 16, if right { 0 } else { 16 }, k, side, at)) by {}
                    lemma_border_edges_same(
                        tm,
                        done,
                        key,
                        if right { 0 } else { 16 },
                        0,
                        done,
                        key,
                        16,
                        if right { 0 } else { 16 },
                    );
                }
            },
        }
    } else {
        proof {
            assert forall|k: u32, side: bool, at: int| #[trigger]
                borders(tm, k, side, at) implies (reached(
                done,
                key,
                if right { 0 } else { 16 },
                0,
                k,
                side,
                at,
            ) <==> reached(done, key, 16, if right { 0 } else { 16 }, k, side, at)) by {}
            lemma_border_edges_same(
                tm,
                done,
                key,
                if right { 0 } else { 16 },
                0,
                done,
                key,
                16,
                if right { 0 } else { 16 },
            );
        }
    }
}

/// Records the adjacency between tiles: where a tile has a tile to its right,
/// the cells of its last column join those of the first column of that tile,
/// row by row; where it has a tile below, the cells of its last row join those
/// of the first row of that tile, column by column. A border with no tile on
/// its other side gives no edge.
pub fn find_inter_tile_neighbors(tiles: &HashMap<u32, Vec<u32>>, graph: &mut NeighborGraph)
    requires
        forall|k: u32| tiles@.contains_key(k) ==> (#[trigger] tiles@[k])@.len() == 256,
        old(graph).wf(),
    ensures
        final(graph).wf(),
        final(graph)@ == old(graph)@.union(border_edges(tile_map(tiles@))),
{
    let ghost tm = tile_map(tiles@);
    let ghost start = graph@;
    let ghost all = spec_hash_map_iter(tiles).remaining();
    let ghost mut done: int = 0;
    let ghost mut finished: Set<u32> = Set::empty();
    proof {
        assert(border_edges_before(tm, finished, 0, 0, 0) =~= Set::<(u32, u32)>::empty());
        assert(start =~= start.union(border_edges_before(tm, finished, 0, 0, 0)));
    }
    for entry in it: tiles.iter()
        invariant
            tm == tile_map(tiles@),
            forall|k: u32| tiles@.contains_key(k) ==> (#[trigger] tiles@[k])@.len() == 256,
            it.seq() == all,
            done == it.index(),
            forall|k: u32|
                finished.contains(k) <==> exists|i: int|
                    0 <= i < done && *(#[trigger] all[i]).0 == k,
            graph.wf(),
            graph@ == start.union(border_edges_before(tm, finished, 0, 0, 0)),
    {
        let key = *entry.0;
        proof {
            assert(*all[done].0 == key);
            assert(tiles@.contains_key(key));
            lemma_border_edges_same(tm, finished, 0, 0, 0, finished, key, 0, 0);
        }
        join_border(tiles, key, true, graph, Ghost(start), Ghost(finished));
        join_border(tiles, key, false, graph, Ghost(start), Ghost(finished));
        proof {
            let grown = finished.insert(key);
            lemma_border_edges_same(tm, finished, key, 16, 16, grown, 0, 0, 0);
            assert forall|k: u32|
                grown.contains(k) <==> exists|i: int|
                    0 <= i < done + 1 && *(#[trigger] all[i]).0 == k by {
                if finished.contains(k) {
                    let i = choose|i: int| 0 <= i < done && *(#[trigger] all[i]).0 == k;
                    assert(*all[i].0 == k);
                }
                if k == key {
                    assert(*all[done].0 == k);
                }
                if exists|i: int| 0 <= i < done + 1 && *(#[trigger] all[i]).0 == k {
                    let i = choose|i: int| 0 <= i < done + 1 && *(#[trigger] all[i]).0 == k;
                    if i < done {
                        assert(finished.contains(k));
                    }
                }
            }
            finished = grown;
            done = done + 1;
        }
    }
    proof {
        assert(done == all.len());
        let found = border_edges_before(tm, finished, 0, 0, 0);
        let whole = border_edges(tm);
        assert forall|p: (u32, u32)| found.contains(p) <==> whole.contains(p) by {
            if whole.contains(p) {
                let (key, right, at) = choose|key: u32, right: bool, at: int|
                    #[trigger] meet_at(tm, key, right, at, p.0, p.1);
                assert(tiles@.contains_key(key));
                assert(all.contains((&key, &tiles@[key])));
                let i = choose|i: int| 0 <= i < all.len() && all[i] == (&key, &tiles@[key]);
                assert(*all[i].0 == key);
                assert(finished.contains(key));
                assert(reached(finished, 0, 0, 0, key, right, at));
            }
            if found.contains(p) {
                let (key, right, at) = choose|key: u32, right: bool, at: int|
                    #[trigger] meet_at(tm, key, right, at, p.0, p.1) && reached(
                        finished,
                        0,
                        0,
                        0,
                        key,
                        right,
                        at,
                    );
                assert(meet_at(tm, key, right, at, p.0, p.1));
            }
        }
        assert(found =~= whole);
    }
}

/// The edges that the tiles with a key in `keys` give rise to, each tile taken by itself.
pub open spec fn inner_edges(tiles: Map<u32, Seq<u32>>, keys: Set<u32>) -> Set<(u32, u32)> {
    Set::new(
        |p: (u32, u32)|
            exists|key: u32|
                keys.contains(key) && tiles.contains_key(key) && #[trigger] tile_edges(
                    tiles[key],
                ).contains(p),
    )
}

/// The edges that the tiles of a continent give rise to: those inside each
/// tile and those across the borders between tiles.
pub open spec fn continent_edges(tiles: Map<u32, Seq<u32>>) -> Set<(u32, u32)> {
    inner_edges(tiles, tiles.dom()).union(border_edges(tiles))
}

/// Records the adjacency of a whole continent: inside every tile, and across
/// the borders between tiles.
pub fn find_continent_neighbors(tiles: &HashMap<u32, Vec<u32>>, graph: &mut NeighborGraph)
    requires
        forall|k: u32| tiles@.contains_key(k) ==> (#[trigger] tiles@[k])@.len() == 256,
        old(graph).wf(),
    ensures
        final(graph).wf(),
        final(graph)@ == old(graph)@.union(continent_edges(tile_map(tiles@))),
{
    let ghost tm = tile_map(tiles@);
    let ghost start = graph@;
    let ghost all = spec_hash_map_iter(tiles).remaining();
    let ghost mut done: int = 0;
    let ghost mut finished: Set<u32> = Set::empty();
    proof {
        assert(inner_edges(tm, finished) =~= Set::<(u32, u32)>::empty());
        assert(start =~= start.union(inner_edges(tm, finished)));
    }
    for entry in it: tiles.iter()
        invariant
            tm == tile_map(tiles@),
            forall|k: u32| tiles@.contains_key(k) ==> (#[trigger] tiles@[k])@.len() == 256,
            it.seq() == all,
            done == it.index(),
            forall|k: u32|
                finished.contains(k) <==> exists|i: int|
                    0 <= i < done && *(#[trigger] all[i]).0 == k,
            graph.wf(),
            graph@ == start.union(inner_edges(tm, finished)),
    {
        let ghost key = *entry.0;
        proof {
            assert(*all[done].0 == key);
            assert(tiles@.contains_key(key) && tiles@[key] == *entry.1);
        }
        find_tile_neighbors(entry.1.as_slice(), graph);
        proof {
            let grown = finished.insert(key);
            let edges = tile_edges(tm[key]);
            assert forall|p: (u32, u32)|
                inner_edges(tm, grown).contains(p) <==> inner_edges(tm, finished).contains(p)
                    || edges.contains(p) by {
                if inner_edges(tm, grown).contains(p) {
                    let k = choose|k: u32|
                        grown.contains(k) && tm.contains_key(k) && #[trigger] tile_edges(
                            tm[k],
                        ).contains(p);
                    if k != key {
                        assert(finished.contains(k) && tile_edges(tm[k]).contains(p));
                    }
                }
                if inner_edges(tm, finished).contains(p) {
                    let k = choose|k: u32|
                        finished.contains(k) && tm.contains_key(k) && #[trigger] tile_edges(
                            tm[k],
                        ).contains(p);
                    assert(grown.contains(k) && tile_edges(tm[k]).contains(p));
                }
                if edges.contains(p) {
                    assert(grown.contains(key) && tile_edges(tm[key]).contains(p));
                }
            }
            assert(start.union(inner_edges(tm, finished)).union(edges) =~= start.union(
                inner_edges(tm, grown),
            ));
            assert forall|k: u32|
                grown.contains(k) <==> exists|i: int|
                    0 <= i < done + 1 && *(#[trigger] all[i]).0 == k by {
                if finished.contains(k) {
                    let i = choose|i: int| 0 <= i < done && *(#[trigger] all[i]).0 == k;
                    assert(*all[i].0 == k);
                }
                if k == key {
                    assert(*all[done].0 == k);
                }
                if exists|i: int| 0 <= i < done + 1 && *(#[trigger] all[i]).0 == k {
                    let i = choose|i: int| 0 <= i < done + 1 && *(#[trigger] all[i]).0 == k;
                    if i < done {
                        assert(finished.contains(k));
                    }
                }
            }
            finished = grown;
            done = done + 1;
        }
    }
    proof {
        assert(done == all.len());
        assert forall|p: (u32, u32)|
            inner_edges(tm, finished).contains(p) <==> inner_edges(tm, tm.dom()).contains(p) by {
            if inner_edges(tm, tm.dom()).contains(p) {
                let k = choose|k: u32|
                    tm.dom().contains(k) && tm.contains_key(k) && #[trigger] tile_edges(
                        tm[k],
                    ).contains(p);
                assert(all.contains((&k, &tiles@[k])));
                let i = choose|i: int| 0 <= i < all.len() && all[i] == (&k, &tiles@[k]);
                assert(*all[i].0 == k);
                assert(finished.contains(k) && tile_edges(tm[k]).contains(p));
            }
            if inner_edges(tm, finished).contains(p) {
                let k = choose|k: u32|
                    finished.contains(k) && tm.contains_key(k) && #[trigger] tile_edges(
                        tm[k],
                    ).contains(p);
                assert(tm.dom().contains(k) && tile_edges(tm[k]).contains(p));
            }
        }
        assert(inner_edges(tm, finished) =~= inner_edges(tm, tm.dom()));
    }
    let ghost inside = graph@;
    find_inter_tile_neighbors(tiles, graph);
    proof {
        assert(inside.union(border_edges(tm)) =~= start.union(continent_edges(tm)));
    }
}

} // verus!
