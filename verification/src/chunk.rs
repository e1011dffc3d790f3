//! Chunk block storage and procedural generation: a chunk is a cube of
//! `CHUNK_SIZE`³ blocks filled from a column height field.

use vstd::prelude::*;

use crate::pos::{block_index, lemma_block_index_injective, LocalBlockPos};
use crate::{BLOCKS_PER_CHUNK, CHUNK_SIZE};

verus! {

/// What occupies one voxel.
#[derive(Debug, Clone, Copy, PartialEq, Eq, Structural)]
pub enum BlockId {
    Air,
    Block,
}

/// Number of solid (non-air) entries in a block sequence.
pub open spec fn count_solid(s: Seq<BlockId>) -> nat
    decreases s.len(),
{
    if s.len() == 0 {
        0
    } else {
        count_solid(s.drop_last()) + if s.last() is Air {
            0nat
        } else {
            1nat
        }
    }
}

/// Whether the entry of `data` for in-range coordinates `(x, y, z)` is
/// solid.
pub open spec fn cell_solid(data: Seq<BlockId>, x: int, y: int, z: int) -> bool {
    data[block_index(x, y, z)] != BlockId::Air
}

/// The generated contents of a chunk: its block array and how many of the
/// blocks are solid.
#[derive(Debug, Clone)]
pub struct ChunkBlocks {
    pub data: Vec<BlockId>,
    pub solid_blocks_count: u32,
}

impl ChunkBlocks {
    /// The block array always holds exactly one entry per voxel and the
    /// counter always matches it.
    pub open spec fn wf(&self) -> bool {
        &&& self.data@.len() == BLOCKS_PER_CHUNK
        &&& self.solid_blocks_count == count_solid(self.data@)
    }

    /// Whether the block at in-range coordinates `(x, y, z)` is solid.
    pub open spec fn solid_at(&self, x: int, y: int, z: int) -> bool {
        cell_solid(self.data@, x, y, z)
    }

    /// An all-air chunk.
    pub fn new_empty() -> (r: Self)
        ensures
            r.wf(),
            r.solid_blocks_count == 0,
            forall|i: int| 0 <= i < BLOCKS_PER_CHUNK ==> r.data@[i] == BlockId::Air,
    {
        let data: Vec<BlockId> = vec![BlockId::Air; BLOCKS_PER_CHUNK];
        proof {
            lemma_count_solid_all_air(data@);
        }
        ChunkBlocks { data, solid_blocks_count: 0 }
    }

    /// Reads one block.
    pub fn get(&self, pos: LocalBlockPos) -> (r: BlockId)
        requires
            self.wf(),
            pos.wf(),
        ensures
            r == self.data@[block_index(pos.x as int, pos.y as int, pos.z as int)],
    {
        let i = pos.to_index();
        self.data[i]
    }
}

/// A sequence with no solid entry counts zero solids.
pub proof fn lemma_count_solid_all_air(s: Seq<BlockId>)
    requires
        forall|i: int| 0 <= i < s.len() ==> s[i] == BlockId::Air,
    ensures
        count_solid(s) == 0,
    decreases s.len(),
{
    if s.len() > 0 {
        lemma_count_solid_all_air(s.drop_last());
    }
}

/// Counts the solid blocks in a full block array.
pub fn count_solid_blocks(data: &Vec<BlockId>) -> (r: u32)
    requires
        data@.len() == BLOCKS_PER_CHUNK,
    ensures
        r == count_solid(data@),
{
    let mut count: u32 = 0;
    let mut i: usize = 0;
    while i < BLOCKS_PER_CHUNK
        invariant
            data@.len() == BLOCKS_PER_CHUNK,
            0 <= i <= BLOCKS_PER_CHUNK,
            count == count_solid(data@.subrange(0, i as int)),
            count <= i,
        decreases BLOCKS_PER_CHUNK - i,
    {
        proof {
            assert(data@.subrange(0, i + 1).drop_last() =~= data@.subrange(0, i as int));
            assert(data@.subrange(0, i + 1).last() == data@[i as int]);
        }
        let b = data[i];
        if b != BlockId::Air {
            count = count + 1;
        }
        i = i + 1;
    }
    proof {
        assert(data@.subrange(0, BLOCKS_PER_CHUNK as int) =~= data@);
    }
    count
}

/// Whether the height field makes the block at `(x, y, z)` of a chunk whose
/// floor sits at absolute height `chunk_floor` solid: the block lies below
/// the height of its column.
pub open spec fn height_solid(heights: Seq<u32>, chunk_floor: int, x: int, y: int, z: int) -> bool {
    chunk_floor + y < heights[x * CHUNK_SIZE + z]
}

/// Fills a chunk from a column height field, the way the world generator
/// does: in the column at `(x, z)` every block strictly below height
/// `heights[x * CHUNK_SIZE + z]` (in absolute block coordinates) is solid
/// and everything at or above it is air.
pub fn generate(heights: &Vec<u32>, chunk_y: i64) -> (r: ChunkBlocks)
    requires
        heights@.len() == CHUNK_SIZE * CHUNK_SIZE,
        i64::MIN <= chunk_y * CHUNK_SIZE,
        chunk_y * CHUNK_SIZE + CHUNK_SIZE <= i64::MAX,
    ensures
        r.wf(),
        forall|x: int, y: int, z: int|
            0 <= x < CHUNK_SIZE && 0 <= y < CHUNK_SIZE && 0 <= z < CHUNK_SIZE ==> (r.solid_at(
                x,
                y,
                z,
            ) <==> height_solid(heights@, chunk_y * CHUNK_SIZE, x, y, z)),
{
    let chunk_floor: i64 = chunk_y * (CHUNK_SIZE as i64);
    let mut data: Vec<BlockId> = vec![BlockId::Air; BLOCKS_PER_CHUNK];

    let mut x: usize = 0;
    while x < CHUNK_SIZE
        invariant
            heights@.len() == CHUNK_SIZE * CHUNK_SIZE,
            chunk_floor == chunk_y * CHUNK_SIZE,
            i64::MIN <= chunk_floor && chunk_floor + CHUNK_SIZE <= i64::MAX,
            0 <= x <= CHUNK_SIZE,
            data@.len() == BLOCKS_PER_CHUNK,
            forall|xi: int, yi: int, zi: int|
                0 <= xi < CHUNK_SIZE && 0 <= yi < CHUNK_SIZE && 0 <= zi < CHUNK_SIZE ==> (
                cell_solid(data@, xi, yi, zi) <==> (xi < x && height_solid(
                    heights@,
                    chunk_floor as int,
                    xi,
                    yi,
                    zi,
                ))),
        decreases CHUNK_SIZE - x,
    {
        let mut z: usize = 0;
        while z < CHUNK_SIZE
            invariant
                heights@.len() == CHUNK_SIZE * CHUNK_SIZE,
                chunk_floor == chunk_y * CHUNK_SIZE,
                i64::MIN <= chunk_floor && chunk_floor + CHUNK_SIZE <= i64::MAX,
                0 <= x < CHUNK_SIZE,
                0 <= z <= CHUNK_SIZE,
                data@.len() == BLOCKS_PER_CHUNK,
                forall|xi: int, yi: int, zi: int|
                    0 <= xi < CHUNK_SIZE && 0 <= yi < CHUNK_SIZE && 0 <= zi < CHUNK_SIZE ==> (
                    cell_solid(data@, xi, yi, zi) <==> ((xi < x || (xi == x && zi < z))
                        && height_solid(heights@, chunk_floor as int, xi, yi, zi))),
            decreases CHUNK_SIZE - z,
        {
            let h = heights[x * CHUNK_SIZE + z];
            let mut y: usize = 0;
            while y < CHUNK_SIZE && chunk_floor + (y as i64) < h as i64
                invariant
                    heights@.len() == CHUNK_SIZE * CHUNK_SIZE,
                    chunk_floor == chunk_y * CHUNK_SIZE,
                    i64::MIN <= chunk_floor && chunk_floor + CHUNK_SIZE <= i64::MAX,
                    0 <= x < CHUNK_SIZE,
                    0 <= z < CHUNK_SIZE,
                    0 <= y <= CHUNK_SIZE,
                    h == heights@[x * CHUNK_SIZE + z],
                    data@.len() == BLOCKS_PER_CHUNK,
                    y == 0 || chunk_floor + y - 1 < h,
                    forall|xi: int, yi: int, zi: int|
                        0 <= xi < CHUNK_SIZE && 0 <= yi < CHUNK_SIZE && 0 <= zi < CHUNK_SIZE ==> (
                        cell_solid(data@, xi, yi, zi) <==> (((xi < x || (xi == x && zi < z))
                            && height_solid(heights@, chunk_floor as int, xi, yi, zi)) || (xi == x
                            && zi == z && yi < y))),
                decreases CHUNK_SIZE - y,
            {
                let pos = LocalBlockPos::new(x as u8, y as u8, z as u8);
                let i = pos.to_index();
                let ghost prev = data@;
                data[i] = BlockId::Block;
                proof {
                    assert forall|xi: int, yi: int, zi: int|
                        0 <= xi < CHUNK_SIZE && 0 <= yi < CHUNK_SIZE && 0 <= zi
                            < CHUNK_SIZE implies (cell_solid(data@, xi, yi, zi) <==> (((xi < x || (
                    xi == x && zi < z)) && height_solid(heights@, chunk_floor as int, xi, yi, zi))
                        || (xi == x && zi == z && yi < y + 1))) by {
                        if block_index(xi, yi, zi) == i {
                            lemma_block_index_injective(xi, yi, zi, x as int, y as int, z as int);
                        } else {
                            assert(cell_solid(data@, xi, yi, zi) == cell_solid(prev, xi, yi, zi));
                        }
                    }
                }
                y = y + 1;
            }
            proof {
                // The column loop stopped at the first non-solid height, so
                // the whole column at (x, z) now matches the predicate.
                assert forall|yi: int| 0 <= yi < CHUNK_SIZE implies (cell_solid(
                    data@,
                    x as int,
                    yi,
                    z as int,
                ) <==> height_solid(heights@, chunk_floor as int, x as int, yi, z as int)) by {
                    if yi < y {
                        assert(chunk_floor + yi < h);
                    } else {
                        assert(chunk_floor + yi >= h);
                    }
                }
            }
            z = z + 1;
        }
        x = x + 1;
    }
    let solid = count_solid_blocks(&data);
    ChunkBlocks { data, solid_blocks_count: solid }
}

} // verus!
