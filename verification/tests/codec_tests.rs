use base64::engine::general_purpose::STANDARD;
use base64::Engine;
use zonemap::codec::bytes_as_ids;
use zonemap::codec::decode_tile_b64;
use zonemap::codec::encode_tile_b64;
use zonemap::codec::ids_as_bytes;
use zonemap::codec::TileError;

#[test]
fn ids_are_written_lowest_byte_first() {
    assert_eq!(ids_as_bytes(&[0x0403_0201, 1, 0xffff_ffff]), vec![
        1, 2, 3, 4, 1, 0, 0, 0, 255, 255, 255, 255
    ]);
    assert_eq!(ids_as_bytes(&[]), Vec::<u8>::new());
}

#[test]
fn bytes_are_read_lowest_byte_first() {
    assert_eq!(bytes_as_ids(&[1, 2, 3, 4, 0, 1, 0, 0]), vec![0x0403_0201, 256]);
    assert_eq!(bytes_as_ids(&[1, 2, 3, 4, 9, 9]), vec![0x0403_0201]);
    assert_eq!(bytes_as_ids(&[1, 2, 3]), Vec::<u32>::new());
}

#[test]
fn bytes_round_trip() {
    let ids: Vec<u32> = (0..300u32).map(|i| i.wrapping_mul(2_654_435_761)).collect();
    assert_eq!(bytes_as_ids(&ids_as_bytes(&ids)), ids);
}

#[test]
fn encode_rejects_wrong_cell_count() {
    assert_eq!(encode_tile_b64(&[1, 2, 3]), Err(TileError::WrongCellCount(3)));
    assert_eq!(encode_tile_b64(&[]), Err(TileError::WrongCellCount(0)));
    assert_eq!(encode_tile_b64(&vec![0u32; 257]), Err(TileError::WrongCellCount(257)));
}

#[test]
fn encode_of_zero_tile_is_all_a() {
    let text = encode_tile_b64(&vec![0u32; 256]).unwrap();
    assert_eq!(text.len(), 1368);
    assert!(text[..1366].chars().all(|c| c == 'A'));
    assert!(text.ends_with("=="));
}

#[test]
fn encode_is_base64_of_little_endian_bytes() {
    let mut ids = vec![0u32; 256];
    ids[0] = 0x0403_0201;
    ids[255] = 440;
    let text = encode_tile_b64(&ids).unwrap();
    let raw = STANDARD.decode(&text).unwrap();
    assert_eq!(raw.len(), 1024);
    assert_eq!(&raw[..4], &[1, 2, 3, 4]);
    assert_eq!(&raw[1020..], &[184, 1, 0, 0]);
    assert!(text.starts_with("AQIDBA"));
}

#[test]
fn snapshot_round_trips() {
    let ids: Vec<u32> = (0..256u32).map(|i| i * 16_777_259 + 5).collect();
    let text = encode_tile_b64(&ids).unwrap();
    assert_eq!(decode_tile_b64(&text), Some(ids));
}

#[test]
fn decode_rejects_what_is_no_snapshot() {
    assert_eq!(decode_tile_b64(""), None);
    assert_eq!(decode_tile_b64("AAAA"), None);
    assert_eq!(decode_tile_b64("not base64 at all!"), None);
    let short = STANDARD.encode(vec![0u8; 1023]);
    assert_eq!(decode_tile_b64(&short), None);
    let long = STANDARD.encode(vec![0u8; 1028]);
    assert_eq!(decode_tile_b64(&long), None);
}
