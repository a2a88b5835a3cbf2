//! Tile geometry: how tiles are laid out on a continent and cells inside a tile.

use vstd::prelude::*;

verus! {

/// Number of tiles along each side of a continent.
pub const TILES_PER_SIDE: u32 = 64;

/// Number of region ids held by one tile.
pub const TILE_CELLS: usize = 256;

/// The linear key of the tile in column `x`, row `y`.
pub open spec fn key_of(x: int, y: int) -> int {
    y * 64 + x
}

/// The column of the tile with the given key.
pub open spec fn column_of(key: int) -> int {
    key % 64
}

/// The row of the tile with the given key.
pub open spec fn row_of(key: int) -> int {
    key / 64
}

/// Linearises a tile coordinate: tiles are numbered row by row.
pub fn tile_key(tile_x: u32, tile_y: u32) -> (key: u32)
    requires
        tile_x < 64,
        tile_y < 64,
    ensures
        key == key_of(tile_x as int, tile_y as int),
        key < 4096,
{
    tile_y * TILES_PER_SIDE + tile_x
}

/// Recovers the coordinate `(x, y)` of a tile from its key.
pub fn tile_coords(key: u32) -> (xy: (u32, u32))
    ensures
        xy.0 == column_of(key as int),
        xy.1 == row_of(key as int),
        xy.0 < 64,
        key < 4096 ==> xy.1 < 64,
{
    (key % TILES_PER_SIDE, key / TILES_PER_SIDE)
}

/// Decoding a key built from a coordinate inside the grid gives the coordinate back.
pub proof fn lemma_key_round_trip(x: int, y: int)
    requires
        0 <= x < 64,
        0 <= y < 64,
    ensures
        0 <= key_of(x, y) < 4096,
        column_of(key_of(x, y)) == x,
        row_of(key_of(x, y)) == y,
{
}

/// Every key below 64 * 64 is the key of its own decoded coordinate.
pub proof fn lemma_coords_round_trip(key: int)
    requires
        0 <= key < 4096,
    ensures
        0 <= column_of(key) < 64,
        0 <= row_of(key) < 64,
        key_of(column_of(key), row_of(key)) == key,
{
}

/// Two coordinates inside the grid with the same key are the same coordinate.
pub proof fn lemma_key_injective(x1: int, y1: int, x2: int, y2: int)
    requires
        0 <= x1 < 64,
        0 <= y1 < 64,
        0 <= x2 < 64,
        0 <= y2 < 64,
        key_of(x1, y1) == key_of(x2, y2),
    ensures
        x1 == x2,
        y1 == y2,
{
}

} // verus!
