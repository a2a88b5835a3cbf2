use zonemap::grid::tile_coords;
use zonemap::grid::tile_key;

#[test]
fn tile_key_numbers_tiles_row_by_row() {
    assert_eq!(tile_key(0, 0), 0);
    assert_eq!(tile_key(5, 0), 5);
    assert_eq!(tile_key(0, 1), 64);
    assert_eq!(tile_key(32, 48), 48 * 64 + 32);
    assert_eq!(tile_key(63, 63), 4095);
}

#[test]
fn tile_coords_inverts_tile_key() {
    for y in 0..64u32 {
        for x in 0..64u32 {
            assert_eq!(tile_coords(tile_key(x, y)), (x, y));
        }
    }
}
