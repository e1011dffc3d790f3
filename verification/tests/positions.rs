use voxel_world::pos::{BlockPos, ChunkPos, FlatChunkPos, LocalBlockPos, RegionPos};
use voxel_world::BLOCKS_PER_CHUNK;

#[test]
fn local_block_index_round_trip() {
    for i in 0..BLOCKS_PER_CHUNK {
        let p = LocalBlockPos::from_index(i);
        assert_eq!(p.to_index(), i);
    }
}

#[test]
fn local_block_index_layout() {
    assert_eq!(LocalBlockPos::new(0, 0, 0).to_index(), 0);
    assert_eq!(LocalBlockPos::new(0, 0, 1).to_index(), 1);
    assert_eq!(LocalBlockPos::new(0, 1, 0).to_index(), 32);
    assert_eq!(LocalBlockPos::new(1, 0, 0).to_index(), 1024);
    assert_eq!(LocalBlockPos::new(31, 31, 31).to_index(), BLOCKS_PER_CHUNK - 1);
}

#[test]
fn local_block_try_new_bounds() {
    assert!(LocalBlockPos::try_new(0, 0, 0).is_some());
    assert!(LocalBlockPos::try_new(31, 31, 31).is_some());
    assert!(LocalBlockPos::try_new(32, 0, 0).is_none());
    assert!(LocalBlockPos::try_new(0, -1, 0).is_none());
    assert!(LocalBlockPos::try_new(0, 0, 127).is_none());
}

#[test]
fn chunk_pos_bytes_round_trip() {
    let cases = [
        (0i64, 0i64, 0i64),
        (1, 2, 3),
        (-1, -2, -3),
        (i64::MAX, i64::MIN, -1),
        (123456789, -987654321, 42),
    ];
    for &(x, y, z) in &cases {
        let p = ChunkPos::new(x, y, z);
        let bytes = p.as_bytes();
        assert_eq!(bytes.len(), 24);
        let q = voxel_world::pos::chunk_pos_from_bytes(&bytes);
        assert_eq!(q.xyz(), (x, y, z));
    }
}

#[test]
fn chunk_pos_bytes_little_endian() {
    let p = ChunkPos::new(1, 256, -1);
    let bytes = p.as_bytes();
    assert_eq!(&bytes[0..8], &[1, 0, 0, 0, 0, 0, 0, 0]);
    assert_eq!(&bytes[8..16], &[0, 1, 0, 0, 0, 0, 0, 0]);
    assert_eq!(&bytes[16..24], &[0xff; 8]);
}

#[test]
fn region_floor_division() {
    assert_eq!(ChunkPos::new(0, 0, 0).region(), RegionPos::new(0, 0, 0));
    assert_eq!(ChunkPos::new(7, 8, 15).region(), RegionPos::new(0, 1, 1));
    assert_eq!(ChunkPos::new(-1, -8, -9).region(), RegionPos::new(-1, -1, -2));
    assert_eq!(ChunkPos::new(-16, 16, -17).region(), RegionPos::new(-2, 2, -3));
}

#[test]
fn between_is_half_open() {
    let a = ChunkPos::new(0, 0, 0);
    let b = ChunkPos::new(8, 8, 8);
    assert!(ChunkPos::new(0, 0, 0).between(&a, &b));
    assert!(ChunkPos::new(7, 7, 7).between(&a, &b));
    assert!(!ChunkPos::new(8, 0, 0).between(&a, &b));
    assert!(!ChunkPos::new(-1, 3, 3).between(&a, &b));
}

#[test]
fn block_pos_to_vec() {
    let p = BlockPos {
        chunk_pos: ChunkPos::new(-1, 2, 0),
        local_pos: LocalBlockPos::new(5, 0, 31),
    };
    assert_eq!(p.to_vec(), (-32 + 5, 64, 31));
}

#[test]
fn flat_chunk_pos_drops_height() {
    let p = ChunkPos::new(3, 77, -4);
    let f = p.flat();
    assert_eq!((f.x(), f.z()), (3, -4));
    assert_eq!(FlatChunkPos::new(3, -4), f);
}
