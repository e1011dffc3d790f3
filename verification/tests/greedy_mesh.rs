use voxel_world::chunk::{count_solid_blocks, BlockId, ChunkBlocks};
use voxel_world::mesh::{mesh_chunk, Neighbours};
use voxel_world::pos::LocalBlockPos;
use voxel_world::vertex::Vertex;
use voxel_world::{BLOCKS_PER_CHUNK, CHUNK_SIZE};

fn chunk_from(data: Vec<BlockId>) -> ChunkBlocks {
    let solid = count_solid_blocks(&data);
    ChunkBlocks { data, solid_blocks_count: solid }
}

fn all_air() -> ChunkBlocks {
    ChunkBlocks::new_empty()
}

fn all_solid() -> ChunkBlocks {
    chunk_from(vec![BlockId::Block; BLOCKS_PER_CHUNK])
}

#[test]
fn empty_chunk_meshes_to_nothing() {
    let blocks = all_air();
    let nbrs = Neighbours::none();
    let mut buff: Vec<Vertex> = Vec::new();
    let count = mesh_chunk(&blocks, &nbrs, &mut buff);
    assert_eq!(count, 0);
    assert_eq!(buff.len(), 0);
}

#[test]
fn single_block_chunk() {
    let mut data = vec![BlockId::Air; BLOCKS_PER_CHUNK];
    data[LocalBlockPos::new(0, 0, 0).to_index()] = BlockId::Block;
    let blocks = chunk_from(data);
    assert_eq!(blocks.solid_blocks_count, 1);
    let nbrs = Neighbours::none();
    let mut buff: Vec<Vertex> = Vec::new();
    let count = mesh_chunk(&blocks, &nbrs, &mut buff);
    // six faces, one quad each, six vertices per quad
    assert_eq!(count, 36);
    for v in &buff {
        let (x, y, z, _) = v.unpack();
        // every vertex is a corner of the unit cube at the origin
        assert!(x <= 1 && y <= 1 && z <= 1, "vertex outside unit cube: {:?}", (x, y, z));
    }
}

#[test]
fn full_chunk_meshes_to_six_quads() {
    let blocks = all_solid();
    let nbrs = Neighbours::none();
    let mut buff: Vec<Vertex> = Vec::new();
    let count = mesh_chunk(&blocks, &nbrs, &mut buff);
    // the greedy sweep coalesces each outward face into one quad
    assert_eq!(count, 36);
    for v in &buff {
        let (x, y, z, _) = v.unpack();
        assert!(x == 0 || x == CHUNK_SIZE as u32);
        assert!(y == 0 || y == CHUNK_SIZE as u32);
        assert!(z == 0 || z == CHUNK_SIZE as u32);
        assert!(x <= CHUNK_SIZE as u32 && y <= CHUNK_SIZE as u32 && z <= CHUNK_SIZE as u32);
    }
}

#[test]
fn solid_neighbor_suppresses_shared_face() {
    let a = all_solid();
    let b = all_solid();
    let mut nbrs = Neighbours::none();
    nbrs.pos_x = Some(&b);
    let mut buff: Vec<Vertex> = Vec::new();
    let count = mesh_chunk(&a, &nbrs, &mut buff);
    // five faces remain: the +X face is covered by the neighbor
    assert_eq!(count, 30);
    // no remaining quad lies in the +X boundary plane
    for quad in buff.chunks(6) {
        let all_at_max_x = quad.iter().all(|v| v.unpack().0 == CHUNK_SIZE as u32);
        assert!(!all_at_max_x, "the +X face should have been suppressed");
    }
}

#[test]
fn interior_faces_emit_nothing() {
    // two adjacent solid blocks share one hidden interior face: the mesh
    // holds both cubes' outer faces only
    let mut data = vec![BlockId::Air; BLOCKS_PER_CHUNK];
    data[LocalBlockPos::new(10, 10, 10).to_index()] = BlockId::Block;
    data[LocalBlockPos::new(11, 10, 10).to_index()] = BlockId::Block;
    let blocks = chunk_from(data);
    let nbrs = Neighbours::none();
    let mut buff: Vec<Vertex> = Vec::new();
    let count = mesh_chunk(&blocks, &nbrs, &mut buff);
    // 2 x-faces + coalesced 2x1 quads for the other four directions
    assert_eq!(count, 36);
}

#[test]
fn vertices_count_is_a_multiple_of_six() {
    let mut data = vec![BlockId::Air; BLOCKS_PER_CHUNK];
    for i in 0..BLOCKS_PER_CHUNK {
        if i % 7 == 0 {
            data[i] = BlockId::Block;
        }
    }
    let blocks = chunk_from(data);
    let nbrs = Neighbours::none();
    let mut buff: Vec<Vertex> = Vec::new();
    let count = mesh_chunk(&blocks, &nbrs, &mut buff);
    assert!(count > 0);
    assert_eq!(count % 6, 0);
    for v in &buff {
        let (x, y, z, _) = v.unpack();
        assert!(x <= CHUNK_SIZE as u32 && y <= CHUNK_SIZE as u32 && z <= CHUNK_SIZE as u32);
    }
}

#[test]
fn quads_are_proper_rectangles_with_face_lights() {
    let mut data = vec![BlockId::Air; BLOCKS_PER_CHUNK];
    data[LocalBlockPos::new(3, 4, 5).to_index()] = BlockId::Block;
    let blocks = chunk_from(data);
    let nbrs = Neighbours::none();
    let mut buff: Vec<Vertex> = Vec::new();
    let count = mesh_chunk(&blocks, &nbrs, &mut buff);
    assert_eq!(count, 36);
    for quad in buff.chunks(6) {
        // all six vertices of a quad carry the same face light
        let light = quad[0].unpack().3;
        assert!(light <= 3);
        assert!(quad.iter().all(|v| v.unpack().3 == light));
        // two triangles over four distinct corners: no degenerate quad
        let mut corners: Vec<u32> = quad.iter().map(|v| v.data).collect();
        corners.sort();
        corners.dedup();
        assert_eq!(corners.len(), 4);
    }
}
