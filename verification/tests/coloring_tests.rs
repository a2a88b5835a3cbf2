use std::collections::BTreeSet;
use std::collections::HashMap;
use zonemap::areas::AreaInfo;
use zonemap::coloring::assign_color;
use zonemap::coloring::coloring_order;
use zonemap::coloring::excluded_slots;
use zonemap::coloring::generate_colors_with_graph;
use zonemap::coloring::ColorChoice;
use zonemap::coloring::PALETTE_SIZE;
use zonemap::graph::add_neighbor;
use zonemap::graph::NeighborGraph;

fn graph_of(links: &[(u32, u32)]) -> NeighborGraph {
    let mut graph = NeighborGraph::new();
    for &(a, b) in links {
        add_neighbor(&mut graph, a, b);
    }
    graph
}

fn found_of(ids: &[u32]) -> BTreeSet<u32> {
    ids.iter().copied().collect()
}

fn parents_of(links: &[(u32, u32)]) -> HashMap<u32, AreaInfo> {
    let mut areas = HashMap::new();
    for &(id, parent_id) in links {
        areas.insert(id, AreaInfo { id, name: String::new(), parent_id, exploration_level: 0 });
    }
    areas
}

#[test]
fn palette_has_sixteen_entries() {
    assert_eq!(PALETTE_SIZE, 16);
}

#[test]
fn order_is_by_falling_degree_then_rising_id() {
    // Degrees: 1 -> 3, 2 -> 1, 3 -> 2, 4 -> 2, 9 -> 0.
    let graph = graph_of(&[(1, 2), (1, 3), (1, 4), (3, 4)]);
    let found = found_of(&[9, 4, 3, 2, 1]);
    assert_eq!(coloring_order(&found, &graph), vec![1, 3, 4, 2, 9]);
}

#[test]
fn order_leaves_out_the_sentinel() {
    let graph = graph_of(&[(1, 2)]);
    let found = found_of(&[0, 1, 2]);
    assert_eq!(coloring_order(&found, &graph), vec![1, 2]);
}

#[test]
fn order_lists_only_found_regions() {
    let graph = graph_of(&[(1, 2), (2, 3)]);
    let found = found_of(&[3, 1]);
    assert_eq!(coloring_order(&found, &graph), vec![1, 3]);
}

#[test]
fn empty_set_gives_empty_coloring() {
    let graph = NeighborGraph::new();
    let colors = generate_colors_with_graph(&BTreeSet::new(), &graph, &HashMap::new());
    assert!(colors.is_empty());
}

#[test]
fn lone_regions_all_take_the_first_entry() {
    let graph = NeighborGraph::new();
    let colors = generate_colors_with_graph(&found_of(&[4, 8, 15]), &graph, &HashMap::new());
    assert_eq!(colors.len(), 3);
    assert_eq!(colors[&4], ColorChoice::Palette(0));
    assert_eq!(colors[&8], ColorChoice::Palette(0));
    assert_eq!(colors[&15], ColorChoice::Palette(0));
}

#[test]
fn sentinel_is_never_colored() {
    let graph = graph_of(&[(1, 2)]);
    let colors = generate_colors_with_graph(&found_of(&[0, 1, 2]), &graph, &HashMap::new());
    assert_eq!(colors.len(), 2);
    assert!(!colors.contains_key(&0));
}

#[test]
fn neighbors_take_the_lowest_free_entries() {
    // A path 1 - 2 - 3: region 2 has most neighbors and is colored first.
    let graph = graph_of(&[(1, 2), (2, 3)]);
    let colors = generate_colors_with_graph(&found_of(&[1, 2, 3]), &graph, &HashMap::new());
    assert_eq!(colors[&2], ColorChoice::Palette(0));
    assert_eq!(colors[&1], ColorChoice::Palette(1));
    assert_eq!(colors[&3], ColorChoice::Palette(1));
}

#[test]
fn triangle_takes_three_entries() {
    let graph = graph_of(&[(1, 2), (2, 3), (3, 1)]);
    let colors = generate_colors_with_graph(&found_of(&[1, 2, 3]), &graph, &HashMap::new());
    assert_eq!(colors[&1], ColorChoice::Palette(0));
    assert_eq!(colors[&2], ColorChoice::Palette(1));
    assert_eq!(colors[&3], ColorChoice::Palette(2));
}

#[test]
fn child_avoids_the_entry_of_its_parent() {
    // 1 is the parent of 2; they do not touch. 1 is colored first.
    let graph = NeighborGraph::new();
    let areas = parents_of(&[(1, 0), (2, 1)]);
    let colors = generate_colors_with_graph(&found_of(&[1, 2]), &graph, &areas);
    assert_eq!(colors[&1], ColorChoice::Palette(0));
    assert_eq!(colors[&2], ColorChoice::Palette(1));
}

#[test]
fn parent_colored_later_does_not_look_at_its_child() {
    // 2 is the parent of 1, and 1 is colored first: both end on entry 0.
    let graph = NeighborGraph::new();
    let areas = parents_of(&[(1, 2), (2, 0)]);
    let colors = generate_colors_with_graph(&found_of(&[1, 2]), &graph, &areas);
    assert_eq!(colors[&1], ColorChoice::Palette(0));
    assert_eq!(colors[&2], ColorChoice::Palette(0));
}

#[test]
fn only_the_direct_parent_counts() {
    // 3 -> 2 -> 1: region 3 avoids the entry of 2, not that of 1.
    let graph = NeighborGraph::new();
    let areas = parents_of(&[(1, 0), (2, 1), (3, 2)]);
    let colors = generate_colors_with_graph(&found_of(&[1, 2, 3]), &graph, &areas);
    assert_eq!(colors[&1], ColorChoice::Palette(0));
    assert_eq!(colors[&2], ColorChoice::Palette(1));
    assert_eq!(colors[&3], ColorChoice::Palette(0));
}

fn clique(size: u32) -> NeighborGraph {
    let mut graph = NeighborGraph::new();
    for a in 1..=size {
        for b in (a + 1)..=size {
            add_neighbor(&mut graph, a, b);
        }
    }
    graph
}

#[test]
fn sixteen_mutual_neighbors_use_the_whole_palette() {
    let graph = clique(16);
    let found: Vec<u32> = (1..=16).collect();
    let colors = generate_colors_with_graph(&found_of(&found), &graph, &HashMap::new());
    for id in 1..=16u32 {
        assert_eq!(colors[&id], ColorChoice::Palette((id - 1) as usize));
    }
}

#[test]
fn seventeenth_mutual_neighbor_gets_a_generated_color() {
    let graph = clique(17);
    let found: Vec<u32> = (1..=17).collect();
    let colors = generate_colors_with_graph(&found_of(&found), &graph, &HashMap::new());
    for id in 1..=16u32 {
        assert_eq!(colors[&id], ColorChoice::Palette((id - 1) as usize));
    }
    assert_eq!(colors[&17], ColorChoice::Generated(17));
}

#[test]
fn generated_colors_do_not_block_palette_entries() {
    // 18 touches only 17, whose color is generated: entry 0 stays free for 18.
    let mut graph = clique(17);
    add_neighbor(&mut graph, 17, 18);
    let found: Vec<u32> = (1..=18).collect();
    let colors = generate_colors_with_graph(&found_of(&found), &graph, &HashMap::new());
    // 17 now has most neighbors and is colored first.
    assert_eq!(colors[&17], ColorChoice::Palette(0));
    assert_eq!(colors[&16], ColorChoice::Generated(16));
    assert_eq!(colors[&18], ColorChoice::Palette(1));
}

#[test]
fn parent_entry_counts_towards_exhaustion() {
    // Region 100 touches 15 regions that hold entries 1 to 15, and its parent
    // holds entry 0: nothing is left.
    let mut colors: HashMap<u32, ColorChoice> = HashMap::new();
    let mut graph = NeighborGraph::new();
    for slot in 1..16u32 {
        add_neighbor(&mut graph, 100, slot);
        colors.insert(slot, ColorChoice::Palette(slot as usize));
    }
    colors.insert(50, ColorChoice::Palette(0));
    let areas = parents_of(&[(100, 50)]);
    let taken = excluded_slots(100, &graph, &areas, &colors);
    assert_eq!(taken, [true; 16]);
    assert_eq!(assign_color(100, &taken), ColorChoice::Generated(100));
}

#[test]
fn excluded_slots_of_a_free_region() {
    let graph = graph_of(&[(1, 2)]);
    let colors: HashMap<u32, ColorChoice> = HashMap::new();
    let taken = excluded_slots(1, &graph, &HashMap::new(), &colors);
    assert_eq!(taken, [false; 16]);
    assert_eq!(assign_color(1, &taken), ColorChoice::Palette(0));
}

#[test]
fn assign_color_takes_the_lowest_gap() {
    let mut taken = [false; 16];
    taken[0] = true;
    taken[1] = true;
    taken[3] = true;
    assert_eq!(assign_color(9, &taken), ColorChoice::Palette(2));
    taken[2] = true;
    assert_eq!(assign_color(9, &taken), ColorChoice::Palette(4));
}

#[test]
fn coloring_is_the_same_whatever_the_insertion_order() {
    let links = [(1u32, 2u32), (2, 3), (3, 4), (4, 1), (1, 3), (5, 6), (6, 7), (7, 5), (8, 1)];
    let mut reversed = links;
    reversed.reverse();
    let first_graph = graph_of(&links);
    let second_graph = graph_of(&reversed);
    let first_found = found_of(&[1, 2, 3, 4, 5, 6, 7, 8, 9]);
    let second_found = found_of(&[9, 8, 7, 6, 5, 4, 3, 2, 1]);
    let areas = parents_of(&[(2, 1), (9, 5), (6, 5)]);
    let first = generate_colors_with_graph(&first_found, &first_graph, &areas);
    let second = generate_colors_with_graph(&second_found, &second_graph, &areas);
    let again = generate_colors_with_graph(&first_found, &first_graph, &areas);
    assert_eq!(first, second);
    assert_eq!(first, again);
}

#[test]
fn touching_regions_never_share_a_palette_entry() {
    let mut graph = NeighborGraph::new();
    let mut links: Vec<(u32, u32)> = Vec::new();
    // A wheel-like graph with some extra chords.
    for a in 1..40u32 {
        links.push((a, a + 1));
        links.push((a, (a * 7) % 40 + 1));
        links.push((a, (a * 11) % 40 + 1));
    }
    for &(a, b) in links.iter() {
        add_neighbor(&mut graph, a, b);
    }
    let found: Vec<u32> = (1..=40).collect();
    let colors = generate_colors_with_graph(&found_of(&found), &graph, &HashMap::new());
    assert_eq!(colors.len(), 40);
    for a in 1..=40u32 {
        for b in 1..=40u32 {
            if graph.are_neighbors(a, b) {
                if let (ColorChoice::Palette(x), ColorChoice::Palette(y)) = (colors[&a], colors[&b]) {
                    assert_ne!(x, y);
                }
            }
        }
    }
}
