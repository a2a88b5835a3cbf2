//! What is reported about the regions found: one record per region, and the
//! regions grouped under their root ancestors.

use crate::areas::find_root_parent;
use crate::areas::parent_of;
use crate::areas::root_of;
use crate::areas::AreaInfo;
use crate::coloring::ColorChoice;
use crate::graph::neighbors_of;
use crate::graph::NeighborGraph;
use std::collections::BTreeMap;
use std::collections::BTreeSet;
use std::collections::HashMap;
use vstd::prelude::*;
use vstd::std_specs::btree::*;
use vstd::std_specs::hash::*;
use vstd::std_specs::iter::IteratorSpec;
use vstd::string::*;

verus! {

broadcast use {group_hash_axioms, group_btree_axioms};

/// The character that writes the decimal digit `d`.
pub open spec fn digit_char(d: nat) -> char {
    if d == 0 {
        '0'
    } else if d == 1 {
        '1'
    } else if d == 2 {
        '2'
    } else if d == 3 {
        '3'
    } else if d == 4 {
        '4'
    } else if d == 5 {
        '5'
    } else if d == 6 {
        '6'
    } else if d == 7 {
        '7'
    } else if d == 8 {
        '8'
    } else {
        '9'
    }
}

/// The decimal digits of `n`, without leading zeros; 0 is written `0`.
pub open spec fn decimal_text(n: nat) -> Seq<char>
    decreases n,
{
    if n < 10 {
        seq![digit_char(n)]
    } else {
        decimal_text(n / 10).push(digit_char(n % 10))
    }
}

/// The name given to a region that the reference data does not know.
pub open spec fn unknown_text(id: u32) -> Seq<char> {
    "Unknown_"@ + decimal_text(id as nat)
}

/// The name under which a region is reported: its name in the reference
/// data, or `Unknown_` and its id where the reference data does not know it.
pub open spec fn display_text(areas: Map<u32, AreaInfo>, id: u32) -> Seq<char> {
    if areas.contains_key(id) {
        areas[id].name@
    } else {
        unknown_text(id)
    }
}

/// `text` with a backslash put before every `"`.
pub open spec fn escaped_text(text: Seq<char>) -> Seq<char>
    decreases text.len(),
{
    if text.len() == 0 {
        text
    } else if text.last() == '"' {
        escaped_text(text.drop_last()).push('\\').push('"')
    } else {
        escaped_text(text.drop_last()).push(text.last())
    }
}

/// The one-character text that writes the decimal digit `d`.
fn digit_str(d: u32) -> (text: &'static str)
    requires
        d <= 9,
    ensures
        text@ == seq![digit_char(d as nat)],
{
    proof {
        reveal_strlit("0");
        reveal_strlit("1");
        reveal_strlit("2");
        reveal_strlit("3");
        reveal_strlit("4");
        reveal_strlit("5");
        reveal_strlit("6");
        reveal_strlit("7");
        reveal_strlit("8");
        reveal_strlit("9");
    }
    let text = match d {
        0 => "0",
        1 => "1",
        2 => "2",
        3 => "3",
        4 => "4",
        5 => "5",
        6 => "6",
        7 => "7",
        8 => "8",
        _ => "9",
    };
    assert(text@ =~= seq![digit_char(d as nat)]);
    text
}

/// Appends the decimal digits of `n` to `out`.
fn append_decimal(out: &mut String, n: u32)
    ensures
        final(out)@ == old(out)@ + decimal_text(n as nat),
{
    // Collect the digits from the lowest up, then append them from the highest down.
    let mut digits: Vec<u32> = Vec::new();
    let mut rest = n;
    while rest >= 10
        invariant
            forall|k: int| 0 <= k < digits@.len() ==> digits@[k] <= 9,
            decimal_text(n as nat) == decimal_text(rest as nat) + Seq::new(
                digits@.len(),
                |k: int| digit_char(digits@[digits@.len() - 1 - k] as nat),
            ),
        decreases rest,
    {
        let ghost before = digits@;
        digits.push(rest % 10);
        proof {
            let tail_before = Seq::new(
                before.len(),
                |k: int| digit_char(before[before.len() - 1 - k] as nat),
            );
            let tail_after = Seq::new(
                digits@.len(),
                |k: int| digit_char(digits@[digits@.len() - 1 - k] as nat),
            );
            assert(tail_after =~= seq![digit_char((rest % 10) as nat)] + tail_before);
            assert(decimal_text(rest as nat) == decimal_text((rest / 10) as nat).push(
                digit_char((rest % 10) as nat),
            ));
            assert(decimal_text((rest / 10) as nat).push(digit_char((rest % 10) as nat))
                + tail_before =~= decimal_text((rest / 10) as nat) + tail_after);
        }
        rest = rest / 10;
    }
    let ghost start = out@;
    let ghost tail = Seq::new(
        digits@.len(),
        |k: int| digit_char(digits@[digits@.len() - 1 - k] as nat),
    );
    out.append(digit_str(rest));
    let mut left = digits.len();
    assert(tail.take(0) =~= Seq::<char>::empty());
    while left > 0
        invariant
            left <= digits@.len(),
            forall|k: int| 0 <= k < digits@.len() ==> digits@[k] <= 9,
            tail == Seq::new(
                digits@.len(),
                |k: int| digit_char(digits@[digits@.len() - 1 - k] as nat),
            ),
            out@ == start + decimal_text(rest as nat) + tail.take(digits@.len() - left),
        decreases left,
    {
        left -= 1;
        out.append(digit_str(digits[left]));
        proof {
            let done = digits@.len() - left;
            assert(tail.take(done) =~= tail.take(done - 1).push(
                digit_char(digits@[left as int] as nat),
            ));
            assert(out@ =~= start + decimal_text(rest as nat) + tail.take(done));
        }
    }
    proof {
        assert(tail.take(digits@.len() as int) =~= tail);
        assert(out@ =~= start + (decimal_text(rest as nat) + tail));
    }
}

/// The name given to a region that the reference data does not know.
pub fn unknown_name(id: u32) -> (name: String)
    ensures
        name@ == unknown_text(id),
{
    let mut name = "Unknown_".to_owned();
    append_decimal(&mut name, id);
    name
}

/// The name under which a region is reported.
pub fn display_name(area_id: u32, areas: &HashMap<u32, AreaInfo>) -> (name: String)
    ensures
        name@ == display_text(areas@, area_id),
{
    match areas.get(&area_id) {
        Some(area) => area.name.clone(),
        None => unknown_name(area_id),
    }
}

/// Puts a backslash before every `"` of `text`, so that the result can stand
/// between double quotes.
pub fn escape_quotes(text: &str) -> (escaped: String)
    ensures
        escaped@ == escaped_text(text@),
{
    let chars = crate::text::chars_of(text);
    let mut escaped = String::new();
    let mut start: usize = 0;
    let mut at: usize = 0;
    proof {
        reveal_strlit("\\\"");
        assert(text@.take(0) =~= Seq::<char>::empty());
        assert(text@.subrange(0, 0) =~= Seq::<char>::empty());
    }
    while at < chars.len()
        invariant
            chars@ == text@,
            start <= at <= text@.len(),
            forall|i: int| start <= i < at ==> text@[i] != '"',
            escaped@ + text@.subrange(start as int, at as int) == escaped_text(
                text@.take(at as int),
            ),
            "\\\""@ == seq!['\\', '"'],
        decreases text@.len() - at,
    {
        proof {
            assert(text@.take(at + 1).drop_last() =~= text@.take(at as int));
            assert(text@.take(at + 1).last() == text@[at as int]);
        }
        if chars[at] == '"' {
            let ghost before = escaped@;
            let ghost run = text@.subrange(start as int, at as int);
            escaped.append(text.substring_char(start, at));
            escaped.append("\\\"");
            start = at + 1;
            proof {
                assert(text@.subrange(at + 1, at + 1) =~= Seq::<char>::empty());
                assert(escaped@ =~= (before + run).push('\\').push('"'));
                assert(escaped@ + text@.subrange(at + 1, at + 1) =~= escaped@);
            }
        } else {
            proof {
                assert(text@.subrange(start as int, at + 1) =~= text@.subrange(
                    start as int,
                    at as int,
                ).push(text@[at as int]));
                assert(escaped@ + text@.subrange(start as int, at + 1) =~= (escaped@
                    + text@.subrange(start as int, at as int)).push(text@[at as int]));
            }
        }
        at += 1;
    }
    escaped.append(text.substring_char(start, at));
    proof {
        assert(text@.take(at as int) =~= text@);
    }
    escaped
}

/// Whether `ids` lists the real regions of `found`, each once, by rising id.
pub open spec fn is_rising_list(ids: Seq<u32>, found: Set<u32>) -> bool {
    &&& forall|i: int, j: int| 0 <= i < j < ids.len() ==> ids[i] < ids[j]
    &&& forall|r: u32| #[trigger] ids.contains(r) <==> found.contains(r) && r != 0
}

/// Lists the real regions of `found_areas` by rising id.
pub fn regions_in_order(found_areas: &BTreeSet<u32>) -> (ids: Vec<u32>)
    ensures
        is_rising_list(ids@, found_areas@),
{
    let mut ids: Vec<u32> = Vec::new();
    let ghost all: Seq<u32> = spec_btree_keys_iter(found_areas).remaining().unref();
    let ghost mut done: int = 0;
    for area in it: found_areas.iter()
        invariant
            all.no_duplicates(),
            all.to_set() == found_areas@,
            it.seq().unref() == all,
            it.seq().len() == all.len(),
            done == it.index(),
            forall|i: int, j: int| 0 <= i < j < ids@.len() ==> ids@[i] < ids@[j],
            forall|r: u32| #[trigger]
                ids@.contains(r) <==> r != 0 && exists|k: int|
                    0 <= k < done && #[trigger] all[k] == r,
    {
        let area = *area;
        let ghost before = ids@;
        assert(all[done] == area);
        assert forall|r: u32| #[trigger] before.contains(r) implies r != area by {
            let k = choose|k: int| 0 <= k < done && #[trigger] all[k] == r;
            assert(all[k] != all[done]);
        }
        if area != 0 {
            // The set hands its regions out by rising id, so the place is
            // found at the end at once.
            let mut pos: usize = ids.len();
            while pos > 0 && ids[pos - 1] > area
                invariant
                    pos <= ids@.len(),
                    forall|i: int| pos <= i < ids@.len() ==> area < #[trigger] ids@[i],
                decreases pos,
            {
                pos -= 1;
            }
            ids.insert(pos, area);
            proof {
                let after = ids@;
                assert(after == before.insert(pos as int, area));
                if pos > 0 {
                    assert(before.contains(before[pos - 1]));
                    assert(before[pos - 1] < area);
                }
                assert forall|i: int, j: int| 0 <= i < j < after.len() implies after[i]
                    < after[j] by {
                    if j < pos {
                        assert(after[i] == before[i] && after[j] == before[j]);
                    } else if j == pos {
                        assert(after[i] == before[i]);
                        if i < pos - 1 {
                            assert(before[i] < before[pos - 1]);
                        }
                    } else if i < pos {
                        assert(after[i] == before[i] && after[j] == before[j - 1]);
                    } else if i == pos {
                        assert(after[j] == before[j - 1]);
                    } else {
                        assert(after[i] == before[i - 1] && after[j] == before[j - 1]);
                    }
                }
                assert forall|r: u32| #[trigger] after.contains(r) <==> r != 0 && exists|k: int|
                    0 <= k < done + 1 && #[trigger] all[k] == r by {
                    if after.contains(r) {
                        let i = choose|i: int| 0 <= i < after.len() && after[i] == r;
                        if i < pos {
                            assert(before[i] == r);
                            assert(before.contains(r));
                        } else if i > pos {
                            assert(before[i - 1] == r);
                            assert(before.contains(r));
                        } else {
                            assert(all[done] == r);
                        }
                    }
                    if r != 0 && exists|k: int| 0 <= k < done + 1 && #[trigger] all[k] == r {
                        let k = choose|k: int| 0 <= k < done + 1 && #[trigger] all[k] == r;
                        if k < done {
                            assert(before.contains(r));
                            let i = choose|i: int| 0 <= i < before.len() && before[i] == r;
                            if i < pos {
                                assert(after[i] == r);
                            } else {
                                assert(after[i + 1] == r);
                            }
                        } else {
                            assert(after[pos as int] == r);
                        }
                    }
                }
            }
        }
        proof {
            done = done + 1;
        }
    }
    proof {
        assert(done == all.len());
        assert forall|r: u32| #[trigger] ids@.contains(r) <==> found_areas@.contains(r) && r
            != 0 by {
            if ids@.contains(r) {
                let k = choose|k: int| 0 <= k < done && #[trigger] all[k] == r;
                assert(all.contains(r));
            }
            if found_areas@.contains(r) && r != 0 {
                assert(all.to_set().contains(r));
                assert(all.contains(r));
                let k = choose|k: int| 0 <= k < all.len() && all[k] == r;
                assert(all[k] == r);
            }
        }
    }
    ids
}

/// What is reported about one region.
#[derive(Debug, Clone)]
pub struct AreaRecord {
    /// The id of the region.
    pub id: u32,
    /// The name under which the region is reported.
    pub name: String,
    /// The id of the enclosing region, or 0.
    pub parent_id: u32,
    /// The id of the root ancestor.
    pub root_parent_id: u32,
    /// The level at which the region counts as explored.
    pub exploration_level: i32,
    /// The color of the region, if it was given one.
    pub color: Option<ColorChoice>,
    /// The number of regions that the region touches.
    pub neighbor_count: usize,
}

/// Whether `record` is what is to be reported about region `id`.
///
/// A region that the reference data does not know is reported under a made
/// up name, without parent, as its own root and with level 0.
pub open spec fn is_record_of(
    record: AreaRecord,
    id: u32,
    areas: Map<u32, AreaInfo>,
    colors: Map<u32, ColorChoice>,
    edges: Set<(u32, u32)>,
) -> bool {
    &&& record.id == id
    &&& record.name@ == display_text(areas, id)
    &&& record.parent_id == parent_of(areas, id)
    &&& record.root_parent_id == root_of(areas, id)
    &&& record.exploration_level == if areas.contains_key(id) {
        areas[id].exploration_level
    } else {
        0
    }
    &&& record.color == if colors.contains_key(id) {
        Some(colors[id])
    } else {
        None
    }
    &&& record.neighbor_count == neighbors_of(edges, id).len()
}

/// Puts together what is reported about one region.
pub fn area_record(
    area_id: u32,
    areas: &HashMap<u32, AreaInfo>,
    colors: &HashMap<u32, ColorChoice>,
    neighbors: &NeighborGraph,
) -> (record: AreaRecord)
    requires
        neighbors.wf(),
    ensures
        is_record_of(record, area_id, areas@, colors@, neighbors@),
{
    let (name, parent_id, root_parent_id, exploration_level) = match areas.get(&area_id) {
        Some(area) => (
            area.name.clone(),
            area.parent_id,
            find_root_parent(area_id, areas),
            area.exploration_level,
        ),
        None => {
            proof {
                crate::areas::lemma_unknown_is_own_root(areas@, area_id);
            }
            (unknown_name(area_id), 0, area_id, 0)
        },
    };
    let color = match colors.get(&area_id) {
        Some(choice) => Some(*choice),
        None => None,
    };
    AreaRecord {
        id: area_id,
        name,
        parent_id,
        root_parent_id,
        exploration_level,
        color,
        neighbor_count: neighbors.neighbor_count(area_id),
    }
}

/// Puts together what is reported about the regions found: one record for
/// each real region, by rising id.
pub fn area_records(
    found_areas: &BTreeSet<u32>,
    areas: &HashMap<u32, AreaInfo>,
    colors: &HashMap<u32, ColorChoice>,
    neighbors: &NeighborGraph,
) -> (records: Vec<AreaRecord>)
    requires
        neighbors.wf(),
    ensures
        is_rising_list(records@.map_values(|record: AreaRecord| record.id), found_areas@),
        forall|i: int|
            0 <= i < records@.len() ==> is_record_of(
                #[trigger] records@[i],
                records@[i].id,
                areas@,
                colors@,
                neighbors@,
            ),
{
    let ids = regions_in_order(found_areas);
    let mut records: Vec<AreaRecord> = Vec::new();
    for at in 0..ids.len()
        invariant
            neighbors.wf(),
            records@.len() == at,
            forall|i: int|
                0 <= i < at ==> is_record_of(
                    #[trigger] records@[i],
                    ids@[i],
                    areas@,
                    colors@,
                    neighbors@,
                ),
    {
        let record = area_record(ids[at], areas, colors, neighbors);
        records.push(record);
    }
    assert(records@.map_values(|record: AreaRecord| record.id) =~= ids@);
    records
}

/// The real regions of `found` whose root ancestor is `root`.
pub open spec fn descendants(found: Set<u32>, areas: Map<u32, AreaInfo>, root: u32) -> Set<u32> {
    Set::new(|id: u32| id != 0 && found.contains(id) && root_of(areas, id) == root)
}

/// Whether `groups` holds the regions of `found` under their root ancestors:
/// there is a group for every root ancestor of a real region of `found`, and
/// the group of a root holds, by id, the names of the regions that have it
/// as their root ancestor.
pub open spec fn is_hierarchy(
    groups: Map<u32, BTreeMap<u32, String>>,
    found: Set<u32>,
    areas: Map<u32, AreaInfo>,
) -> bool {
    &&& forall|root: u32| #[trigger]
        groups.contains_key(root) <==> exists|id: u32| #[trigger]
            descendants(found, areas, root).contains(id)
    &&& forall|root: u32, id: u32|
        groups.contains_key(root) ==> (#[trigger] groups[root]@.contains_key(id)
            <==> descendants(found, areas, root).contains(id))
    &&& forall|root: u32, id: u32|
        groups.contains_key(root) && #[trigger] groups[root]@.contains_key(id)
            ==> groups[root]@[id]@ == display_text(areas, id)
}

/// Groups the regions found under their root ancestors.
pub fn group_by_root(found_areas: &BTreeSet<u32>, areas: &HashMap<u32, AreaInfo>) -> (hierarchy:
    BTreeMap<u32, BTreeMap<u32, String>>)
    ensures
        is_hierarchy(hierarchy@, found_areas@, areas@),
{
    let mut hierarchy: BTreeMap<u32, BTreeMap<u32, String>> = BTreeMap::new();
    let ghost all: Seq<u32> = spec_btree_keys_iter(found_areas).remaining().unref();
    let ghost mut done: int = 0;
    let ghost mut seen: Set<u32> = Set::empty();
    for area in it: found_areas.iter()
        invariant
            all.to_set() == found_areas@,
            it.seq().unref() == all,
            it.seq().len() == all.len(),
            done == it.index(),
            forall|r: u32| seen.contains(r) <==> exists|k: int| 0 <= k < done && #[trigger] all[k] == r,
            is_hierarchy(hierarchy@, seen, areas@),
    {
        let area_id = *area;
        assert(all[done] == area_id);
        let ghost grown = seen.insert(area_id);
        if area_id != 0 {
            let root_parent = find_root_parent(area_id, areas);
            let name = display_name(area_id, areas);
            let ghost groups_before = hierarchy@;
            let mut children = match hierarchy.remove(&root_parent) {
                Some(children) => children,
                None => BTreeMap::new(),
            };
            let ghost children_before = children@;
            children.insert(area_id, name);
            hierarchy.insert(root_parent, children);
            proof {
                let groups = hierarchy@;
                assert(groups =~= groups_before.insert(root_parent, children));
                assert(descendants(grown, areas@, root_parent).contains(area_id));
                assert forall|root: u32| #[trigger]
                    groups.contains_key(root) <==> exists|id: u32| #[trigger]
                        descendants(grown, areas@, root).contains(id) by {
                    if groups_before.contains_key(root) {
                        let id = choose|id: u32| #[trigger]
                            descendants(seen, areas@, root).contains(id);
                        assert(descendants(grown, areas@, root).contains(id));
                    }
                    if exists|id: u32| #[trigger] descendants(grown, areas@, root).contains(id) {
                        let id = choose|id: u32| #[trigger]
                            descendants(grown, areas@, root).contains(id);
                        if id != area_id {
                            assert(descendants(seen, areas@, root).contains(id));
                        }
                    }
                }
                assert forall|root: u32, id: u32| groups.contains_key(root) implies (
                #[trigger] groups[root]@.contains_key(id) <==> descendants(
                    grown,
                    areas@,
                    root,
                ).contains(id)) by {
                    if root == root_parent {
                        if groups_before.contains_key(root) {
                            assert(children_before == groups_before[root]@);
                            assert(groups_before[root]@.contains_key(id) <==> descendants(
                                seen,
                                areas@,
                                root,
                            ).contains(id));
                        } else {
                            assert(!descendants(seen, areas@, root).contains(id));
                        }
                    } else {
                        assert(groups_before.contains_key(root));
                        assert(groups_before[root]@.contains_key(id) <==> descendants(
                            seen,
                            areas@,
                            root,
                        ).contains(id));
                    }
                }
                assert forall|root: u32, id: u32|
                    groups.contains_key(root) && #[trigger] groups[root]@.contains_key(
                        id,
                    ) implies groups[root]@[id]@ == display_text(areas@, id) by {
                    if root == root_parent {
                        if id != area_id {
                            assert(groups_before.contains_key(root));
                            assert(groups_before[root]@.contains_key(id));
                        }
                    } else {
                        assert(groups_before.contains_key(root));
                        assert(groups_before[root]@.contains_key(id));
                    }
                }
            }
        } else {
            proof {
                assert forall|root: u32| descendants(grown, areas@, root) =~= descendants(
                    seen,
                    areas@,
                    root,
                ) by {}
                assert forall|root: u32| #[trigger]
                    hierarchy@.contains_key(root) <==> exists|id: u32| #[trigger]
                        descendants(grown, areas@, root).contains(id) by {
                    assert(descendants(grown, areas@, root) == descendants(seen, areas@, root));
                }
                assert forall|root: u32, id: u32| hierarchy@.contains_key(root) implies (
                #[trigger] hierarchy@[root]@.contains_key(id) <==> descendants(
                    grown,
                    areas@,
                    root,
                ).contains(id)) by {
                    assert(descendants(grown, areas@, root) == descendants(seen, areas@, root));
                }
            }
        }
        proof {
            assert forall|r: u32|
                grown.contains(r) <==> exists|k: int| 0 <= k < done + 1 && #[trigger] all[k] == r by {
                if seen.contains(r) {
                    let k = choose|k: int| 0 <= k < done && #[trigger] all[k] == r;
                    assert(all[k] == r);
                }
                if exists|k: int| 0 <= k < done + 1 && #[trigger] all[k] == r {
                    let k = choose|k: int| 0 <= k < done + 1 && #[trigger] all[k] == r;
                    if k < done {
                        assert(seen.contains(r));
                    }
                }
            }
            seen = grown;
            done = done + 1;
        }
    }
    proof {
        assert(done == all.len());
        assert forall|r: u32| seen.contains(r) <==> found_areas@.contains(r) by {
            if seen.contains(r) {
                let k = choose|k: int| 0 <= k < done && #[trigger] all[k] == r;
                assert(all.contains(r));
            }
            if found_areas@.contains(r) {
                assert(all.to_set().contains(r));
                assert(all.contains(r));
                let k = choose|k: int| 0 <= k < all.len() && all[k] == r;
                assert(all[k] == r);
            }
        }
        assert(seen =~= found_areas@);
    }
    hierarchy
}

} // verus!
