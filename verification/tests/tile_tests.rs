use omegaflow::tile::{decode_be_samples, ElevationTile, TILE_BYTES, TILE_SIDE, VOID_SAMPLE};

fn tile_bytes(samples: &[(usize, usize, i16)]) -> Vec<u8> {
    let mut bytes = vec![0u8; TILE_BYTES];
    for &(x, y, v) in samples {
        let k = 2 * (y * TILE_SIDE + x);
        let b = v.to_be_bytes();
        bytes[k] = b[0];
        bytes[k + 1] = b[1];
    }
    bytes
}

#[test]
fn samples_are_big_endian_and_signed() {
    assert_eq!(decode_be_samples(&[0x01, 0x02, 0xff, 0xfe, 0x80, 0x00]), vec![258, -2, -32768]);
}

#[test]
fn trailing_odd_byte_is_ignored() {
    assert_eq!(decode_be_samples(&[0x00, 0x05, 0x07]), vec![5]);
}

#[test]
fn tile_needs_exact_file_size() {
    assert!(ElevationTile::from_bytes(&vec![0u8; TILE_BYTES - 1]).is_none());
    assert!(ElevationTile::from_bytes(&vec![0u8; TILE_BYTES + 1]).is_none());
    assert!(ElevationTile::from_bytes(&[]).is_none());
    assert!(ElevationTile::from_bytes(&vec![0u8; TILE_BYTES]).is_some());
}

#[test]
fn height_reads_the_stored_sample() {
    let bytes = tile_bytes(&[(0, 0, 1234), (1200, 1200, -15), (5, 7, 2962)]);
    let tile = ElevationTile::from_bytes(&bytes).unwrap();
    assert_eq!(tile.height_at(0, 0), 1234);
    assert_eq!(tile.height_at(1200, 1200), -15);
    assert_eq!(tile.height_at(5, 7), 2962);
    assert_eq!(tile.height_at(7, 5), 0);
}

#[test]
fn void_reads_as_zero() {
    let bytes = tile_bytes(&[(3, 4, VOID_SAMPLE)]);
    let tile = ElevationTile::from_bytes(&bytes).unwrap();
    assert_eq!(tile.height_at(3, 4), 0);
}

#[test]
fn outside_the_tile_reads_as_zero() {
    let bytes = tile_bytes(&[(0, 0, 77)]);
    let tile = ElevationTile::from_bytes(&bytes).unwrap();
    assert_eq!(tile.height_at(TILE_SIDE, 0), 0);
    assert_eq!(tile.height_at(0, TILE_SIDE), 0);
    assert_eq!(tile.height_at(usize::MAX, usize::MAX), 0);
}
