use voxel_world::pos::{ChunkPos, RegionPos};
use voxel_world::regions::{record_region_draws, RegionCmdBuff, RegionsManager};
use voxel_world::world::{VertexBuffer, World};

#[test]
fn set_dirty_creates_the_region_lazily() {
    let mut regions = RegionsManager::new(3);
    assert_eq!(regions.len(), 0);
    regions.set_dirty(RegionPos::new(0, 0, 0));
    assert_eq!(regions.len(), 1);
    regions.set_dirty(RegionPos::new(0, 0, 0));
    assert_eq!(regions.len(), 1);
    regions.set_dirty(RegionPos::new(-1, 0, 2));
    assert_eq!(regions.len(), 2);
}

#[test]
fn fetch_records_once_until_dirty_again() {
    let mut region = RegionCmdBuff::new(RegionPos::new(0, 0, 0), 2);
    assert!(region.fetch_dirty(0));
    assert!(!region.fetch_dirty(0));
    assert!(region.fetch_dirty(1));
    region.set_dirty();
    assert!(region.fetch_dirty(0));
    assert!(region.fetch_dirty(1));
}

#[test]
fn pipeline_recreation_resizes_and_dirties_everything() {
    let mut regions = RegionsManager::new(2);
    regions.set_dirty(RegionPos::new(0, 0, 0));
    regions.set_dirty(RegionPos::new(1, 0, 0));
    // drain one dirty bit so something is clean
    assert!(regions.regions[0].fetch_dirty(0));

    regions.pipeline_recreated(5);
    assert_eq!(regions.buffers_count, 5);
    for region in &regions.regions {
        assert_eq!(region.dirty_buffs.len(), 5);
        assert!(region.dirty_buffs.iter().all(|&d| d));
    }
}

#[test]
fn region_draws_cover_exactly_the_resident_uploaded_chunks() {
    let mut world = World::new();
    let inside_with_buffer = ChunkPos::new(1, 2, 3);
    let inside_without = ChunkPos::new(4, 5, 6);
    let outside = ChunkPos::new(9, 0, 0);
    world.load(inside_with_buffer);
    world.load(inside_without);
    world.load(outside);
    let vb = VertexBuffer { id: 11, vertex_count: 36 };
    world.install_vertex_buffer(inside_with_buffer, vb);
    let far_vb = VertexBuffer { id: 12, vertex_count: 6 };
    world.install_vertex_buffer(outside, far_vb);

    let region = RegionCmdBuff::new(RegionPos::new(0, 0, 0), 1);
    let draws = record_region_draws(&world, &region);
    assert_eq!(draws, vec![(inside_with_buffer, vb)]);
}

#[test]
fn region_box_matches_floor_division() {
    let region = RegionCmdBuff::new(RegionPos::new(-1, 0, 0), 1);
    assert_eq!(region.min_pos, ChunkPos::new(-8, 0, 0));
    assert_eq!(region.max_pos, ChunkPos::new(0, 8, 8));
    // a chunk is inside the box exactly when the box's region is its own
    assert!(ChunkPos::new(-1, 7, 0).between(&region.min_pos, &region.max_pos));
    assert_eq!(ChunkPos::new(-1, 7, 0).region(), RegionPos::new(-1, 0, 0));
    assert!(!ChunkPos::new(0, 0, 0).between(&region.min_pos, &region.max_pos));
}
