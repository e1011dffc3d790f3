use voxel_world::chunk::{generate, BlockId, ChunkBlocks};
use voxel_world::pos::LocalBlockPos;
use voxel_world::CHUNK_SIZE;

/// A deterministic height field shaped like the noise-based one: every
/// column height lies in [50, 150].
fn heights() -> Vec<u32> {
    let mut v = Vec::with_capacity(CHUNK_SIZE * CHUNK_SIZE);
    for x in 0..CHUNK_SIZE {
        for z in 0..CHUNK_SIZE {
            v.push(50 + ((x * 31 + z * 17) % 101) as u32);
        }
    }
    v
}

fn solid_at(c: &ChunkBlocks, x: u8, y: u8, z: u8) -> bool {
    c.data[LocalBlockPos::new(x, y, z).to_index()] != BlockId::Air
}

#[test]
fn generate_matches_height_field() {
    let h = heights();
    let c = generate(&h, 2);
    let floor = 2 * CHUNK_SIZE as i64;
    let mut expected_solid = 0u32;
    for x in 0..CHUNK_SIZE {
        for z in 0..CHUNK_SIZE {
            for y in 0..CHUNK_SIZE {
                let want = floor + (y as i64) < h[x * CHUNK_SIZE + z] as i64;
                assert_eq!(solid_at(&c, x as u8, y as u8, z as u8), want);
                if want {
                    expected_solid += 1;
                }
            }
        }
    }
    assert_eq!(c.solid_blocks_count, expected_solid);
}

#[test]
fn vertically_adjacent_chunks_share_the_height_field() {
    // chunks (0, 0, 0) and (0, 1, 0) generated from the same height field:
    // the top layer of the lower chunk and the bottom layer of the upper
    // one must be derivable from the same map, bit for bit
    let h = heights();
    let lower = generate(&h, 0);
    let upper = generate(&h, 1);
    for x in 0..CHUNK_SIZE {
        for z in 0..CHUNK_SIZE {
            let col = h[x * CHUNK_SIZE + z] as i64;
            assert_eq!(solid_at(&lower, x as u8, 31, z as u8), 31 < col);
            assert_eq!(solid_at(&upper, x as u8, 0, z as u8), 32 < col);
            // no column ends below the lower chunk's top while continuing
            // in the upper chunk
            if solid_at(&upper, x as u8, 0, z as u8) {
                assert!(solid_at(&lower, x as u8, 31, z as u8));
            }
        }
    }
}

#[test]
fn chunk_above_the_terrain_is_empty() {
    let h = heights();
    let c = generate(&h, 5);
    assert_eq!(c.solid_blocks_count, 0);
}

#[test]
fn chunk_below_the_terrain_is_full() {
    let h = heights();
    let c = generate(&h, 1);
    assert!(c.solid_blocks_count > 0);
    let buried = generate(&h, 0);
    // heights start at 50, so the chunk at the bottom of the world is full
    assert_eq!(buried.solid_blocks_count, (CHUNK_SIZE * CHUNK_SIZE * CHUNK_SIZE) as u32);
}
