use voxel_world::chunk::{generate, ChunkBlocks};
use voxel_world::pos::{ChunkPos, RegionPos};
use voxel_world::world::{VertexBuffer, WaitingForDeleteBuffers, World, MAX_LOADED_CHUNKS_PER_FRAME};
use voxel_world::{CHUNK_SIZE, DISCARD_DISTANCE, RENDER_DISTANCE};

#[test]
fn tick_loads_boundedly_and_eviction_clears_the_origin() {
    let mut world = World::new();
    let origin = ChunkPos::new(0, 0, 0);
    let r1 = world.tick(origin);
    assert_eq!(r1.loaded.len(), MAX_LOADED_CHUNKS_PER_FRAME);
    let near_origin = r1.loaded[0];
    assert!(world.contains(near_origin));

    // teleport the camera 1000 chunks along +X: everything near the origin
    // is farther than DISCARD_DISTANCE and goes away in one tick
    let far = ChunkPos::new(1000, 0, 0);
    let r2 = world.tick(far);
    assert!(r2.loaded.len() <= MAX_LOADED_CHUNKS_PER_FRAME);
    let d = DISCARD_DISTANCE as i64;
    for i in 0..world.len() {
        let p = world.chunks[i].pos;
        assert!(
            (p.x - far.x).abs() <= d && (p.y - far.y).abs() <= d && (p.z - far.z).abs() <= d,
            "chunk {:?} should have been evicted",
            p.xyz()
        );
    }
    assert!(!world.contains(near_origin));
}

#[test]
fn tick_converges_and_then_loads_nothing() {
    let mut world = World::new();
    let pc = ChunkPos::new(0, 0, 0);
    // preload the whole render cube
    let r = RENDER_DISTANCE as i64;
    for dx in -r..=r {
        for dy in -r..=r {
            for dz in -r..=r {
                assert!(world.load(ChunkPos::new(dx, dy, dz)));
            }
        }
    }
    let len_before = world.len();
    let first = world.tick(pc);
    assert_eq!(first.loaded.len(), 0);
    assert_eq!(world.len(), len_before);
    let second = world.tick(pc);
    assert_eq!(second.loaded.len(), 0);
    assert_eq!(world.len(), len_before);
}

#[test]
fn load_is_idempotent_per_position() {
    let mut world = World::new();
    let p = ChunkPos::new(5, -3, 2);
    assert!(world.load(p));
    assert!(!world.load(p));
    assert_eq!(world.len(), 1);
    assert_eq!(world.created_chunks_total, 1);
}

#[test]
fn empty_chunks_are_not_forwarded_to_the_mesher() {
    let mut world = World::new();
    let p = ChunkPos::new(0, 9, 0);
    world.load(p);
    // far above the terrain: all air
    let heights: Vec<u32> = vec![50; CHUNK_SIZE * CHUNK_SIZE];
    let blocks = generate(&heights, 9);
    assert_eq!(blocks.solid_blocks_count, 0);
    assert!(!world.on_generated(p, blocks));

    // a chunk with solid blocks is forwarded
    let q = ChunkPos::new(0, 0, 0);
    world.load(q);
    let filled = generate(&heights, 0);
    assert!(filled.solid_blocks_count > 0);
    assert!(world.on_generated(q, filled));
}

#[test]
fn generated_blocks_for_evicted_chunks_are_dropped() {
    let mut world = World::new();
    let gone = ChunkPos::new(77, 77, 77);
    let blocks = ChunkBlocks::new_empty();
    assert!(!world.on_generated(gone, blocks));
    assert_eq!(world.len(), 0);
}

#[test]
fn installing_a_vertex_buffer_dirties_the_chunks_region() {
    let mut world = World::new();
    let p = ChunkPos::new(-9, 3, 17);
    world.load(p);
    let vb = VertexBuffer { id: 7, vertex_count: 36 };
    let region = world.install_vertex_buffer(p, vb);
    assert_eq!(region, Some(RegionPos::new(-2, 0, 2)));

    // installing on an evicted chunk is a no-op
    let missing = ChunkPos::new(1, 1, 1);
    assert_eq!(world.install_vertex_buffer(missing, vb), None);
}

#[test]
fn evicted_buffers_survive_two_more_ticks() {
    let mut ring = WaitingForDeleteBuffers::new();
    let vb = VertexBuffer { id: 42, vertex_count: 6 };
    let destroyed1 = ring.tick(vec![vb]);
    assert!(destroyed1.is_empty());
    let destroyed2 = ring.tick(Vec::new());
    assert!(destroyed2.is_empty());
    let destroyed3 = ring.tick(Vec::new());
    assert_eq!(destroyed3, vec![vb]);
}

#[test]
fn eviction_routes_buffers_through_the_ring() {
    let mut world = World::new();
    let p = ChunkPos::new(500, 0, 0);
    world.load(p);
    let vb = VertexBuffer { id: 9, vertex_count: 12 };
    world.install_vertex_buffer(p, vb);

    // tick far away: the chunk is evicted, its region goes stale and its
    // buffer enters the ring instead of being destroyed
    let r1 = world.tick(ChunkPos::new(0, 0, 0));
    assert!(r1.evicted_regions.contains(&RegionPos::new(62, 0, 0)));
    assert!(r1.destroyed_buffers.is_empty());
    let r2 = world.tick(ChunkPos::new(0, 0, 0));
    assert!(r2.destroyed_buffers.is_empty());
    let r3 = world.tick(ChunkPos::new(0, 0, 0));
    assert_eq!(r3.destroyed_buffers, vec![vb]);
}

#[test]
fn get_returns_the_entry_at_a_position() {
    let mut world = World::new();
    let p = ChunkPos::new(2, 4, 6);
    world.load(p);
    let entry = world.get(p).unwrap();
    assert_eq!(entry.pos, p);
    assert!(entry.blocks.is_none());
    assert!(world.get(ChunkPos::new(0, 0, 1)).is_none());
}
