use std::collections::HashMap;
use zonemap::adjacency::find_continent_neighbors;
use zonemap::adjacency::find_inter_tile_neighbors;
use zonemap::adjacency::find_tile_neighbors;
use zonemap::graph::NeighborGraph;
use zonemap::grid::tile_key;

fn edges(graph: &NeighborGraph, upto: u32) -> Vec<(u32, u32)> {
    let mut found = Vec::new();
    for a in 0..upto {
        for b in 0..upto {
            if graph.are_neighbors(a, b) {
                found.push((a, b));
            }
        }
    }
    found
}

#[test]
fn uniform_tile_gives_no_edges() {
    let tile = vec![5u32; 256];
    let mut graph = NeighborGraph::new();
    find_tile_neighbors(&tile, &mut graph);
    assert_eq!(graph.len(), 0);
}

#[test]
fn single_cell_region_touches_its_surroundings() {
    let mut tile = vec![5u32; 256];
    tile[17] = 7;
    let mut graph = NeighborGraph::new();
    find_tile_neighbors(&tile, &mut graph);
    assert_eq!(edges(&graph, 10), vec![(5, 7), (7, 5)]);
    assert_eq!(graph.neighbor_count(5), 1);
    assert_eq!(graph.neighbor_count(7), 1);
    assert_eq!(graph.len(), 2);
}

#[test]
fn cells_touch_along_sides_only() {
    // Region 1 at (row 0, col 0), region 2 at (row 1, col 1): they meet at a
    // corner only. Both touch region 9, which fills the rest.
    let mut tile = vec![9u32; 256];
    tile[0] = 1;
    tile[17] = 2;
    let mut graph = NeighborGraph::new();
    find_tile_neighbors(&tile, &mut graph);
    assert!(!graph.are_neighbors(1, 2));
    assert!(graph.are_neighbors(1, 9));
    assert!(graph.are_neighbors(2, 9));
}

#[test]
fn row_end_does_not_touch_next_row_start() {
    // Cell 15 ends row 0 and cell 16 starts row 1.
    let mut tile = vec![0u32; 256];
    tile[15] = 1;
    tile[16] = 2;
    let mut graph = NeighborGraph::new();
    find_tile_neighbors(&tile, &mut graph);
    assert!(!graph.are_neighbors(1, 2));
    assert_eq!(graph.len(), 0);
}

#[test]
fn sentinel_cells_give_no_edges() {
    let mut tile = vec![0u32; 256];
    tile[100] = 4;
    let mut graph = NeighborGraph::new();
    find_tile_neighbors(&tile, &mut graph);
    assert_eq!(graph.len(), 0);
    assert_eq!(graph.neighbor_count(4), 0);
}

#[test]
fn vertical_and_horizontal_pairs_are_both_seen() {
    let mut tile = vec![0u32; 256];
    // 1 left of 2 in the last row, 3 above 4 in the last column.
    tile[15 * 16 + 3] = 1;
    tile[15 * 16 + 4] = 2;
    tile[14 * 16 + 15] = 3;
    tile[15 * 16 + 15] = 4;
    let mut graph = NeighborGraph::new();
    find_tile_neighbors(&tile, &mut graph);
    assert_eq!(edges(&graph, 6), vec![(1, 2), (2, 1), (3, 4), (4, 3)]);
}

#[test]
fn tiles_side_by_side_join_across_the_border() {
    let mut tiles: HashMap<u32, Vec<u32>> = HashMap::new();
    tiles.insert(tile_key(0, 0), vec![3u32; 256]);
    tiles.insert(tile_key(1, 0), vec![4u32; 256]);
    let mut graph = NeighborGraph::new();
    find_inter_tile_neighbors(&tiles, &mut graph);
    assert_eq!(edges(&graph, 10), vec![(3, 4), (4, 3)]);
    assert_eq!(graph.len(), 2);
}

#[test]
fn only_border_columns_join() {
    let mut left = vec![1u32; 256];
    let mut right = vec![2u32; 256];
    for row in 0..16 {
        left[row * 16 + 15] = 3;
        right[row * 16] = 4;
    }
    let mut tiles: HashMap<u32, Vec<u32>> = HashMap::new();
    tiles.insert(tile_key(0, 0), left);
    tiles.insert(tile_key(1, 0), right);
    let mut graph = NeighborGraph::new();
    find_inter_tile_neighbors(&tiles, &mut graph);
    assert_eq!(edges(&graph, 10), vec![(3, 4), (4, 3)]);
}

#[test]
fn tiles_one_above_the_other_join_across_the_border() {
    let mut upper = vec![1u32; 256];
    let mut lower = vec![2u32; 256];
    for col in 0..16 {
        upper[15 * 16 + col] = 5;
        lower[col] = 6;
    }
    let mut tiles: HashMap<u32, Vec<u32>> = HashMap::new();
    tiles.insert(tile_key(7, 2), upper);
    tiles.insert(tile_key(7, 3), lower);
    let mut graph = NeighborGraph::new();
    find_inter_tile_neighbors(&tiles, &mut graph);
    assert_eq!(edges(&graph, 10), vec![(5, 6), (6, 5)]);
}

#[test]
fn border_cells_join_row_by_row() {
    let mut left = vec![0u32; 256];
    let mut right = vec![0u32; 256];
    left[2 * 16 + 15] = 1;
    right[2 * 16] = 2;
    left[5 * 16 + 15] = 3;
    right[6 * 16] = 4;
    let mut tiles: HashMap<u32, Vec<u32>> = HashMap::new();
    tiles.insert(tile_key(10, 10), left);
    tiles.insert(tile_key(11, 10), right);
    let mut graph = NeighborGraph::new();
    find_inter_tile_neighbors(&tiles, &mut graph);
    assert_eq!(edges(&graph, 6), vec![(1, 2), (2, 1)]);
}

#[test]
fn absent_neighbor_tiles_give_no_edges() {
    let mut tiles: HashMap<u32, Vec<u32>> = HashMap::new();
    tiles.insert(tile_key(0, 0), vec![3u32; 256]);
    tiles.insert(tile_key(2, 0), vec![4u32; 256]);
    tiles.insert(tile_key(0, 2), vec![5u32; 256]);
    let mut graph = NeighborGraph::new();
    find_inter_tile_neighbors(&tiles, &mut graph);
    assert_eq!(graph.len(), 0);
}

#[test]
fn last_column_does_not_wrap_to_next_row() {
    // Tile (63, 0) has key 63 and tile (0, 1) has key 64: they are not side by side.
    let mut tiles: HashMap<u32, Vec<u32>> = HashMap::new();
    tiles.insert(tile_key(63, 0), vec![3u32; 256]);
    tiles.insert(tile_key(0, 1), vec![4u32; 256]);
    let mut graph = NeighborGraph::new();
    find_inter_tile_neighbors(&tiles, &mut graph);
    assert_eq!(graph.len(), 0);
}

#[test]
fn diagonal_tiles_do_not_join() {
    let mut tiles: HashMap<u32, Vec<u32>> = HashMap::new();
    tiles.insert(tile_key(4, 4), vec![3u32; 256]);
    tiles.insert(tile_key(5, 5), vec![4u32; 256]);
    let mut graph = NeighborGraph::new();
    find_inter_tile_neighbors(&tiles, &mut graph);
    assert_eq!(graph.len(), 0);
}

#[test]
fn inter_tile_pass_keeps_earlier_edges() {
    let mut tiles: HashMap<u32, Vec<u32>> = HashMap::new();
    tiles.insert(tile_key(0, 0), vec![3u32; 256]);
    tiles.insert(tile_key(1, 0), vec![4u32; 256]);
    let mut graph = NeighborGraph::new();
    zonemap::graph::add_neighbor(&mut graph, 8, 9);
    find_inter_tile_neighbors(&tiles, &mut graph);
    assert_eq!(edges(&graph, 10), vec![(3, 4), (4, 3), (8, 9), (9, 8)]);
}

#[test]
fn continent_pass_sees_inside_and_across() {
    let mut left = vec![1u32; 256];
    left[17] = 2;
    let right = vec![3u32; 256];
    let mut tiles: HashMap<u32, Vec<u32>> = HashMap::new();
    tiles.insert(tile_key(20, 30), left);
    tiles.insert(tile_key(21, 30), right);
    let mut graph = NeighborGraph::new();
    find_continent_neighbors(&tiles, &mut graph);
    assert_eq!(edges(&graph, 5), vec![(1, 2), (1, 3), (2, 1), (3, 1)]);
}

#[test]
fn tile_order_does_not_matter() {
    let mut first: HashMap<u32, Vec<u32>> = HashMap::new();
    let mut second: HashMap<u32, Vec<u32>> = HashMap::new();
    let mut made: Vec<(u32, Vec<u32>)> = Vec::new();
    for y in 0..3u32 {
        for x in 0..3u32 {
            let mut tile = vec![y * 3 + x + 1; 256];
            tile[40] = 20 + x;
            made.push((tile_key(x, y), tile));
        }
    }
    for (key, tile) in made.iter() {
        first.insert(*key, tile.clone());
    }
    for (key, tile) in made.iter().rev() {
        second.insert(*key, tile.clone());
    }
    let mut one = NeighborGraph::new();
    let mut two = NeighborGraph::new();
    find_continent_neighbors(&first, &mut one);
    find_continent_neighbors(&second, &mut two);
    assert_eq!(edges(&one, 30), edges(&two, 30));
    assert!(one.are_neighbors(1, 2));
    assert!(one.are_neighbors(1, 4));
    assert!(!one.are_neighbors(1, 5));
    assert!(one.are_neighbors(1, 20));
}
