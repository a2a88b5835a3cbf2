//! The tiles of one continent, collected tile by tile.

use crate::adjacency::tile_map;
use crate::codec::encode_tile_b64;
use crate::codec::snapshot_of;
use crate::codec::TileError;
use crate::grid::key_of;
use crate::grid::tile_key;
use crate::grid::TILE_CELLS;
use std::collections::BTreeMap;
use std::collections::BTreeSet;
use std::collections::HashMap;
use vstd::prelude::*;
use vstd::std_specs::btree::*;
use vstd::std_specs::hash::*;

verus! {

broadcast use {group_hash_axioms, group_btree_axioms};

/// The real regions among `ids`: every id but 0.
pub open spec fn real_regions(ids: Seq<u32>) -> Set<u32> {
    Set::new(|r: u32| r != 0 && ids.contains(r))
}

/// What a tile decoder's output becomes before it is used: nothing when the
/// decoder found no cell at all, else exactly 256 ids, missing cells being
/// filled with region 0 and cells beyond the 256th being dropped.
pub open spec fn padded(ids: Seq<u32>) -> Option<Seq<u32>> {
    if ids.len() == 0 {
        None
    } else {
        Some(Seq::new(256, |i: int| if i < ids.len() { ids[i] } else { 0 }))
    }
}

/// Brings the region ids that a tile decoder found to the 256 ids of a tile.
/// A tile for which no id was found is dropped.
pub fn pad_area_ids(area_ids: Vec<u32>) -> (tile: Option<Vec<u32>>)
    ensures
        match tile {
            Some(ids) => padded(area_ids@) == Some(ids@),
            None => padded(area_ids@) is None,
        },
{
    let mut area_ids = area_ids;
    let ghost found = area_ids@;
    if area_ids.len() == 0 {
        return None;
    }
    if area_ids.len() != TILE_CELLS {
        area_ids.resize(TILE_CELLS, 0);
    }
    assert(area_ids@ =~= padded(found)->Some_0);
    Some(area_ids)
}

/// The tiles of one continent: the region ids of every tile, the text form of
/// every tile, and the real regions seen in any tile so far.
pub struct TileGridExport {
    continent_name: String,
    tiles_b64: BTreeMap<u32, String>,
    tiles_raw: HashMap<u32, Vec<u32>>,
    found_areas: BTreeSet<u32>,
}

impl TileGridExport {
    /// The name of the continent.
    pub closed spec fn name(&self) -> Seq<char> {
        self.continent_name@
    }

    /// The region ids of every tile held, by tile key.
    pub closed spec fn tiles(&self) -> Map<u32, Seq<u32>> {
        tile_map(self.tiles_raw@)
    }

    /// The text form of every tile held, by tile key.
    pub closed spec fn snapshots(&self) -> Map<u32, Seq<char>> {
        Map::new(|key: u32| self.tiles_b64@.contains_key(key), |key: u32| self.tiles_b64@[key]@)
    }

    /// The real regions seen so far.
    pub closed spec fn found(&self) -> Set<u32> {
        self.found_areas@
    }

    /// The collection is consistent: every tile lies inside the grid, has
    /// 256 region ids and is held together with its text form, and every real
    /// region of every tile counts as found.
    pub open spec fn wf(&self) -> bool {
        &&& self.snapshots().dom() == self.tiles().dom()
        &&& !self.found().contains(0)
        &&& forall|key: u32| #[trigger]
            self.tiles().contains_key(key) ==> {
                &&& key < 4096
                &&& self.tiles()[key].len() == 256
                &&& self.snapshots()[key] == snapshot_of(self.tiles()[key])
                &&& real_regions(self.tiles()[key]).subset_of(self.found())
            }
    }

    /// A collection without tiles for the continent of the given name.
    pub fn new(continent_name: &str) -> (export: Self)
        ensures
            export.wf(),
            export.name() == continent_name@,
            export.tiles() == Map::<u32, Seq<u32>>::empty(),
            export.snapshots() == Map::<u32, Seq<char>>::empty(),
            export.found() == Set::<u32>::empty(),
    {
        let export = TileGridExport {
            continent_name: continent_name.to_owned(),
            tiles_b64: BTreeMap::new(),
            tiles_raw: HashMap::new(),
            found_areas: BTreeSet::new(),
        };
        assert(export.tiles() =~= Map::<u32, Seq<u32>>::empty());
        assert(export.snapshots() =~= Map::<u32, Seq<char>>::empty());
        export
    }

    /// Takes in the tile at column `tile_x`, row `tile_y`, replacing the tile
    /// that was held for that place, if any. Its real regions count as found
    /// from now on.
    ///
    /// A tile outside the 64 x 64 grid or without exactly 256 region ids is
    /// turned down, and the collection stays as it was.
    pub fn add_tile(&mut self, tile_x: u32, tile_y: u32, area_ids: Vec<u32>) -> (added: Result<
        (),
        TileError,
    >)
        requires
            old(self).wf(),
        ensures
            final(self).wf(),
            final(self).name() == old(self).name(),
            match added {
                Ok(_) => {
                    &&& tile_x < 64 && tile_y < 64 && area_ids@.len() == 256
                    &&& final(self).tiles() == old(self).tiles().insert(
                        key_of(tile_x as int, tile_y as int) as u32,
                        area_ids@,
                    )
                    &&& final(self).snapshots() == old(self).snapshots().insert(
                        key_of(tile_x as int, tile_y as int) as u32,
                        snapshot_of(area_ids@),
                    )
                    &&& final(self).found() == old(self).found().union(real_regions(area_ids@))
                },
                Err(reason) => {
                    &&& final(self).tiles() == old(self).tiles()
                    &&& final(self).snapshots() == old(self).snapshots()
                    &&& final(self).found() == old(self).found()
                    &&& if tile_x >= 64 || tile_y >= 64 {
                        reason == TileError::OutsideGrid(tile_x, tile_y)
                    } else {
                        area_ids@.len() != 256 && reason == TileError::WrongCellCount(
                            area_ids.len(),
                        )
                    }
                },
            },
    {
        if tile_x >= 64 || tile_y >= 64 {
            return Err(TileError::OutsideGrid(tile_x, tile_y));
        }
        let b64 = match encode_tile_b64(area_ids.as_slice()) {
            Ok(text) => text,
            Err(reason) => {
                return Err(reason);
            },
        };
        let key = tile_key(tile_x, tile_y);
        let ghost ids = area_ids@;
        let ghost found_before = self.found_areas@;
        proof {
            assert(real_regions(ids.take(0)) =~= Set::<u32>::empty());
            assert(found_before =~= found_before.union(real_regions(ids.take(0))));
        }
        for i in 0..area_ids.len()
            invariant
                ids == area_ids@,
                self.found_areas@ == found_before.union(real_regions(ids.take(i as int))),
                self.tiles_raw == old(self).tiles_raw,
                self.tiles_b64 == old(self).tiles_b64,
                self.continent_name == old(self).continent_name,
        {
            let aid = area_ids[i];
            proof {
                let shorter = ids.take(i as int);
                let longer = ids.take(i + 1);
                let seen = real_regions(shorter);
                let grown = real_regions(longer);
                assert(longer =~= shorter.push(aid));
                assert forall|r: u32| grown.contains(r) <==> seen.contains(r) || (r == aid && aid
                    != 0) by {
                    if shorter.contains(r) {
                        let k = choose|k: int| 0 <= k < shorter.len() && shorter[k] == r;
                        assert(longer[k] == r);
                    }
                    if longer.contains(r) {
                        let k = choose|k: int| 0 <= k < longer.len() && longer[k] == r;
                        if k < i {
                            assert(shorter[k] == r);
                        }
                    }
                    assert(longer[i as int] == aid);
                }
                if aid != 0 {
                    assert(found_before.union(grown) =~= found_before.union(seen).insert(aid));
                } else {
                    assert(found_before.union(grown) =~= found_before.union(seen));
                }
            }
            if aid != 0 {
                self.found_areas.insert(aid);
            }
        }
        proof {
            assert(ids.take(area_ids.len() as int) =~= ids);
        }
        self.tiles_b64.insert(key, b64);
        self.tiles_raw.insert(key, area_ids);
        proof {
            assert(self.tiles() =~= old(self).tiles().insert(key, ids));
            assert(self.snapshots() =~= old(self).snapshots().insert(key, snapshot_of(ids)));
            assert(self.snapshots().dom() =~= self.tiles().dom());
            assert forall|k: u32| #[trigger] self.tiles().contains_key(k) implies real_regions(
                self.tiles()[k],
            ).subset_of(self.found()) by {
                if k != key {
                    assert(old(self).tiles().contains_key(k));
                    assert(real_regions(old(self).tiles()[k]).subset_of(old(self).found()));
                }
            }
        }
        Ok(())
    }

    /// The name of the continent.
    pub fn continent_name(&self) -> (name: &str)
        ensures
            name@ == self.name(),
    {
        self.continent_name.as_str()
    }

    /// The region ids of every tile held, by tile key.
    pub fn tiles_raw(&self) -> (tiles: &HashMap<u32, Vec<u32>>)
        ensures
            tile_map(tiles@) == self.tiles(),
            self.wf() ==> forall|key: u32|
                tiles@.contains_key(key) ==> (#[trigger] tiles@[key])@.len() == 256,
    {
        proof {
            if self.wf() {
                assert forall|key: u32| self.tiles_raw@.contains_key(key) implies (
                #[trigger] self.tiles_raw@[key])@.len() == 256 by {
                    assert(self.tiles().contains_key(key));
                }
            }
        }
        &self.tiles_raw
    }

    /// The text form of every tile held, by tile key.
    pub fn tiles_b64(&self) -> (texts: &BTreeMap<u32, String>)
        ensures
            texts@.dom() == self.snapshots().dom(),
            forall|key: u32| texts@.contains_key(key) ==> (#[trigger] texts@[key])@
                == self.snapshots()[key],
    {
        proof {
            assert(self.tiles_b64@.dom() =~= self.snapshots().dom());
        }
        &self.tiles_b64
    }

    /// The real regions seen so far.
    pub fn found_areas(&self) -> (found: &BTreeSet<u32>)
        ensures
            found@ == self.found(),
    {
        &self.found_areas
    }
}

} // verus!
