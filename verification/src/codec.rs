//! The text form of a tile: its 256 region ids as little-endian bytes, in
//! base64.

use crate::grid::TILE_CELLS;
use crate::outside::base64_bytes;
use crate::outside::base64_decode;
use crate::outside::base64_encode;
use crate::outside::base64_text;
use vstd::prelude::*;

verus! {

/// Why a tile was turned down.
#[derive(Clone, Copy, Debug, PartialEq, Eq, Structural)]
pub enum TileError {
    /// The tile does not hold 256 region ids but this many.
    WrongCellCount(usize),
    /// The tile coordinate lies outside the 64 x 64 grid.
    OutsideGrid(u32, u32),
}

/// Byte `k` of `value`, the lowest byte being byte 0.
pub open spec fn le_byte(value: u32, k: int) -> u8 {
    if k == 0 {
        (value % 256) as u8
    } else if k == 1 {
        (value / 256 % 256) as u8
    } else if k == 2 {
        (value / 65536 % 256) as u8
    } else {
        (value / 16777216) as u8
    }
}

/// The number whose four bytes are `b0` to `b3`, lowest byte first.
pub open spec fn le_value(b0: u8, b1: u8, b2: u8, b3: u8) -> u32 {
    (b0 + 256 * b1 + 65536 * b2 + 16777216 * b3) as u32
}

/// The region ids written one after the other, four bytes each, lowest byte first.
pub open spec fn ids_to_bytes(ids: Seq<u32>) -> Seq<u8> {
    Seq::new(4 * ids.len(), |i: int| le_byte(ids[i / 4], i % 4))
}

/// The region ids that `bytes` holds, four bytes each, lowest byte first.
/// Bytes left over at the end are ignored.
pub open spec fn bytes_to_ids(bytes: Seq<u8>) -> Seq<u32> {
    Seq::new(
        (bytes.len() / 4) as nat,
        |i: int| le_value(bytes[4 * i], bytes[4 * i + 1], bytes[4 * i + 2], bytes[4 * i + 3]),
    )
}

/// The text form of a tile with the given region ids.
pub open spec fn snapshot_of(ids: Seq<u32>) -> Seq<char> {
    base64_text(ids_to_bytes(ids))
}

/// The region ids of the tile that `text` is the text form of, if it is one:
/// `text` has to be base64 for exactly 1024 bytes.
pub open spec fn ids_of_snapshot(text: Seq<char>) -> Option<Seq<u32>> {
    match base64_bytes(text) {
        Some(bytes) => if bytes.len() == 1024 {
            Some(bytes_to_ids(bytes))
        } else {
            None
        },
        None => None,
    }
}

/// Reading the bytes of a list of region ids gives the list back.
pub proof fn lemma_bytes_round_trip(ids: Seq<u32>)
    ensures
        ids_to_bytes(ids).len() == 4 * ids.len(),
        bytes_to_ids(ids_to_bytes(ids)) == ids,
{
    let bytes = ids_to_bytes(ids);
    let back = bytes_to_ids(bytes);
    assert(back.len() == ids.len());
    assert forall|i: int| 0 <= i < ids.len() implies back[i] == ids[i] by {
        let v = ids[i];
        assert((4 * i) / 4 == i && (4 * i + 1) / 4 == i && (4 * i + 2) / 4 == i && (4 * i + 3) / 4
            == i);
        assert((4 * i) % 4 == 0 && (4 * i + 1) % 4 == 1 && (4 * i + 2) % 4 == 2 && (4 * i + 3) % 4
            == 3);
        assert(bytes[4 * i] == le_byte(v, 0));
        assert(bytes[4 * i + 1] == le_byte(v, 1));
        assert(bytes[4 * i + 2] == le_byte(v, 2));
        assert(bytes[4 * i + 3] == le_byte(v, 3));
    }
    assert(back =~= ids);
}

/// Writes the region ids one after the other, four bytes each, lowest byte first.
pub fn ids_as_bytes(ids: &[u32]) -> (raw: Vec<u8>)
    requires
        4 * ids@.len() <= usize::MAX,
    ensures
        raw@ == ids_to_bytes(ids@),
{
    let mut raw: Vec<u8> = Vec::with_capacity(ids.len() * 4);
    for i in 0..ids.len()
        invariant
            4 * ids@.len() <= usize::MAX,
            raw@.len() == 4 * i,
            forall|k: int| 0 <= k < raw@.len() ==> raw@[k] == le_byte(ids@[k / 4], k % 4),
    {
        let v = ids[i];
        raw.push((v % 256) as u8);
        raw.push((v / 256 % 256) as u8);
        raw.push((v / 65536 % 256) as u8);
        raw.push((v / 16777216) as u8);
    }
    assert(raw@ =~= ids_to_bytes(ids@));
    raw
}

/// Reads region ids back from bytes, four bytes each, lowest byte first.
pub fn bytes_as_ids(raw: &[u8]) -> (ids: Vec<u32>)
    ensures
        ids@ == bytes_to_ids(raw@),
{
    let count = raw.len() / 4;
    let mut ids: Vec<u32> = Vec::with_capacity(count);
    for i in 0..count
        invariant
            count == raw@.len() / 4,
            4 * count <= raw@.len() <= usize::MAX,
            ids@.len() == i,
            forall|k: int|
                0 <= k < i ==> ids@[k] == le_value(
                    raw@[4 * k],
                    raw@[4 * k + 1],
                    raw@[4 * k + 2],
                    raw@[4 * k + 3],
                ),
    {
        let b0 = raw[4 * i] as u32;
        let b1 = raw[4 * i + 1] as u32;
        let b2 = raw[4 * i + 2] as u32;
        let b3 = raw[4 * i + 3] as u32;
        ids.push(b0 + 256 * b1 + 65536 * b2 + 16777216 * b3);
    }
    assert(ids@ =~= bytes_to_ids(raw@));
    ids
}

/// Gives the text form of a tile, or the reason why there is none: a tile
/// has exactly 256 region ids.
///
/// The text can be read back: `decode_tile_b64` returns the same region ids.
pub fn encode_tile_b64(area_ids_256: &[u32]) -> (encoded: Result<String, TileError>)
    ensures
        match encoded {
            Ok(text) => {
                &&& area_ids_256@.len() == 256
                &&& text@ == snapshot_of(area_ids_256@)
                &&& ids_of_snapshot(text@) == Some(area_ids_256@)
            },
            Err(reason) => {
                &&& area_ids_256@.len() != 256
                &&& reason == TileError::WrongCellCount(area_ids_256.len())
            },
        },
{
    if area_ids_256.len() != TILE_CELLS {
        return Err(TileError::WrongCellCount(area_ids_256.len()));
    }
    let raw = ids_as_bytes(area_ids_256);
    proof {
        lemma_bytes_round_trip(area_ids_256@);
    }
    Ok(base64_encode(raw.as_slice()))
}

/// Reads a tile back from its text form. Text that is not the text form of
/// any tile gives `None`.
pub fn decode_tile_b64(text: &str) -> (decoded: Option<Vec<u32>>)
    ensures
        match decoded {
            Some(ids) => ids_of_snapshot(text@) == Some(ids@) && ids@.len() == 256,
            None => ids_of_snapshot(text@) is None,
        },
{
    match base64_decode(text) {
        Ok(raw) => {
            if raw.len() == 1024 {
                Some(bytes_as_ids(raw.as_slice()))
            } else {
                None
            }
        },
        Err(_) => None,
    }
}

} // verus!
