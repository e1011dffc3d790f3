//! The packed vertex format the mesher emits: one 32-bit word per vertex,
//! laid out `[x:6][y:6][z:6][light:14]` and advertised to the GPU as a
//! single `R32_UINT` attribute.

use vstd::prelude::*;

use crate::CHUNK_SIZE;

verus! {

/// Largest value the light-modifier field can hold (14 bits).
pub const MAX_LIGHT_MODIFIER: u32 = 16383;

/// One vertex of a chunk mesh.
#[derive(Debug, Clone, Copy, PartialEq, Eq, Structural)]
pub struct Vertex {
    pub data: u32,
}

/// The x coordinate encoded in a vertex word.
pub open spec fn vert_x(d: u32) -> u32 {
    d & 0x3f
}

/// The y coordinate encoded in a vertex word.
pub open spec fn vert_y(d: u32) -> u32 {
    (d >> 6) & 0x3f
}

/// The z coordinate encoded in a vertex word.
pub open spec fn vert_z(d: u32) -> u32 {
    (d >> 12) & 0x3f
}

/// The light modifier encoded in a vertex word.
pub open spec fn vert_light(d: u32) -> u32 {
    d >> 18
}

/// A vertex word whose coordinates all lie inside `[0, CHUNK_SIZE]`; every
/// vertex of a meshed chunk satisfies this.
pub open spec fn vert_in_chunk(d: u32) -> bool {
    vert_x(d) <= CHUNK_SIZE && vert_y(d) <= CHUNK_SIZE && vert_z(d) <= CHUNK_SIZE
}

/// Packing in-range fields and decoding them again gives the fields back:
/// the vertex word loses nothing.
pub proof fn lemma_pack_round_trip(x: u32, y: u32, z: u32, light: u32)
    requires
        x <= CHUNK_SIZE,
        y <= CHUNK_SIZE,
        z <= CHUNK_SIZE,
        light <= MAX_LIGHT_MODIFIER,
    ensures
        vert_x(x | y << 6 | z << 12 | light << 18) == x,
        vert_y(x | y << 6 | z << 12 | light << 18) == y,
        vert_z(x | y << 6 | z << 12 | light << 18) == z,
        vert_light(x | y << 6 | z << 12 | light << 18) == light,
{
    assert((x | y << 6 | z << 12 | light << 18) & 0x3f == x && ((x | y << 6 | z << 12 | light
        << 18) >> 6) & 0x3f == y && ((x | y << 6 | z << 12 | light << 18) >> 12) & 0x3f == z && (x
        | y << 6 | z << 12 | light << 18) >> 18 == light) by (bit_vector)
        requires
            x <= 32,
            y <= 32,
            z <= 32,
            light <= 16383,
    ;
}

impl Vertex {
    /// Packs coordinates and light modifier into one vertex word.
    pub fn pack(x: u32, y: u32, z: u32, light: u32) -> (r: Vertex)
        requires
            x <= CHUNK_SIZE,
            y <= CHUNK_SIZE,
            z <= CHUNK_SIZE,
            light <= MAX_LIGHT_MODIFIER,
        ensures
            r.data == x | y << 6 | z << 12 | light << 18,
            vert_x(r.data) == x,
            vert_y(r.data) == y,
            vert_z(r.data) == z,
            vert_light(r.data) == light,
            vert_in_chunk(r.data),
    {
        proof {
            lemma_pack_round_trip(x, y, z, light);
        }
        Vertex { data: x | y << 6 | z << 12 | light << 18 }
    }

    /// Decodes a vertex word into `(x, y, z, light)`.
    pub fn unpack(self) -> (r: (u32, u32, u32, u32))
        ensures
            r.0 == vert_x(self.data),
            r.1 == vert_y(self.data),
            r.2 == vert_z(self.data),
            r.3 == vert_light(self.data),
    {
        (self.data & 0x3f, (self.data >> 6) & 0x3f, (self.data >> 12) & 0x3f, self.data >> 18)
    }
}

} // verus!
