use std::collections::HashMap;
use zonemap::areas::find_root_parent;
use zonemap::areas::AreaInfo;

fn area(id: u32, parent_id: u32) -> AreaInfo {
    AreaInfo { id, name: format!("Area {}", id), parent_id, exploration_level: 0 }
}

fn table(links: &[(u32, u32)]) -> HashMap<u32, AreaInfo> {
    let mut areas = HashMap::new();
    for &(id, parent) in links {
        areas.insert(id, area(id, parent));
    }
    areas
}

#[test]
fn region_without_parent_is_its_own_root() {
    let areas = table(&[(12, 0)]);
    assert_eq!(find_root_parent(12, &areas), 12);
}

#[test]
fn chain_resolves_to_its_top() {
    let areas = table(&[(1, 2), (2, 3), (3, 0)]);
    assert_eq!(find_root_parent(1, &areas), 3);
    assert_eq!(find_root_parent(2, &areas), 3);
    assert_eq!(find_root_parent(3, &areas), 3);
}

#[test]
fn unknown_region_is_its_own_root() {
    let areas = table(&[(1, 0)]);
    assert_eq!(find_root_parent(77, &areas), 77);
    assert_eq!(find_root_parent(0, &areas), 0);
}

#[test]
fn chain_into_unknown_region_gives_the_start() {
    // 1 -> 2 -> 99, and 99 is not in the table.
    let areas = table(&[(1, 2), (2, 99)]);
    assert_eq!(find_root_parent(1, &areas), 1);
    assert_eq!(find_root_parent(2, &areas), 2);
}

#[test]
fn two_cycle_ends_where_it_started() {
    let areas = table(&[(10, 20), (20, 10)]);
    assert_eq!(find_root_parent(10, &areas), 10);
    assert_eq!(find_root_parent(20, &areas), 20);
}

#[test]
fn self_parent_ends_at_once() {
    let areas = table(&[(5, 5)]);
    assert_eq!(find_root_parent(5, &areas), 5);
}

#[test]
fn tail_into_cycle_ends_at_first_repeat() {
    // 1 -> 2 -> 3 -> 4 -> 2
    let areas = table(&[(1, 2), (2, 3), (3, 4), (4, 2)]);
    assert_eq!(find_root_parent(1, &areas), 2);
    assert_eq!(find_root_parent(3, &areas), 3);
}
