//! Position algebra: block positions inside a chunk, chunk positions in the
//! world, region positions grouping chunks, and the linear block index and
//! byte encodings the renderer relies on.

use vstd::prelude::*;
use vstd::arithmetic::div_mod::{
    lemma_fundamental_div_mod, lemma_fundamental_div_mod_converse,
};

use crate::{BLOCKS_PER_CHUNK, CHUNK_SIZE, REGION_SIZE};

verus! {

/// The position of a block in a chunk; every coordinate lies in
/// `[0, CHUNK_SIZE)`.
#[derive(Debug, Clone, Copy, PartialEq, Eq, Structural, Hash)]
pub struct LocalBlockPos {
    pub x: u8,
    pub y: u8,
    pub z: u8,
}

/// The linear index a block position serializes to.
pub open spec fn block_index(x: int, y: int, z: int) -> int {
    (x * CHUNK_SIZE + y) * CHUNK_SIZE + z
}

impl LocalBlockPos {
    pub open spec fn wf(&self) -> bool {
        self.x < CHUNK_SIZE && self.y < CHUNK_SIZE && self.z < CHUNK_SIZE
    }

    pub fn new(x: u8, y: u8, z: u8) -> (r: Self)
        requires
            x < CHUNK_SIZE,
            y < CHUNK_SIZE,
            z < CHUNK_SIZE,
        ensures
            r.wf(),
            r.x == x && r.y == y && r.z == z,
    {
        Self { x, y, z }
    }

    /// Accepts exactly the coordinates that all lie in `[0, CHUNK_SIZE)`.
    pub fn try_new(x: i8, y: i8, z: i8) -> (r: Option<Self>)
        ensures
            r is Some <==> (0 <= x < CHUNK_SIZE && 0 <= y < CHUNK_SIZE && 0 <= z < CHUNK_SIZE),
            r matches Some(p) ==> p.wf() && p.x == x && p.y == y && p.z == z,
    {
        if 0 <= x && x < CHUNK_SIZE as i8 && 0 <= y && y < CHUNK_SIZE as i8 && 0 <= z
            && z < CHUNK_SIZE as i8 {
            Some(Self { x: x as u8, y: y as u8, z: z as u8 })
        } else {
            None
        }
    }

    pub fn to_index(self) -> (r: usize)
        requires
            self.wf(),
        ensures
            r == block_index(self.x as int, self.y as int, self.z as int),
            r < BLOCKS_PER_CHUNK,
    {
        (self.x as usize * CHUNK_SIZE + self.y as usize) * CHUNK_SIZE + self.z as usize
    }

    /// Inverse of [`Self::to_index`].
    pub fn from_index(i: usize) -> (r: Self)
        requires
            i < BLOCKS_PER_CHUNK,
        ensures
            r.wf(),
            block_index(r.x as int, r.y as int, r.z as int) == i,
    {
        let x = i / (CHUNK_SIZE * CHUNK_SIZE);
        let y = (i / CHUNK_SIZE) % CHUNK_SIZE;
        let z = i % CHUNK_SIZE;
        proof {
            lemma_block_index_of_div_mod(i as int);
        }
        Self { x: x as u8, y: y as u8, z: z as u8 }
    }
}

/// Decomposing an index by division and remainder recomposes to the index:
/// the linear encoding of block positions is a bijection on
/// `[0, BLOCKS_PER_CHUNK)`.
pub proof fn lemma_block_index_of_div_mod(i: int)
    requires
        0 <= i < BLOCKS_PER_CHUNK,
    ensures
        block_index(i / ((CHUNK_SIZE * CHUNK_SIZE) as int), (i / (CHUNK_SIZE as int)) % (
        CHUNK_SIZE as int), i % (CHUNK_SIZE as int)) == i,
        i / ((CHUNK_SIZE * CHUNK_SIZE) as int) < CHUNK_SIZE,
        0 <= i / ((CHUNK_SIZE * CHUNK_SIZE) as int),
        0 <= (i / (CHUNK_SIZE as int)) % (CHUNK_SIZE as int) < CHUNK_SIZE,
        0 <= i % (CHUNK_SIZE as int) < CHUNK_SIZE,
{
    let c = CHUNK_SIZE as int;
    lemma_fundamental_div_mod(i, c);
    lemma_fundamental_div_mod(i / c, c);
    lemma_fundamental_div_mod(i, c * c);
    assert(i / (c * c) == (i / c) / c) by (nonlinear_arith)
        requires
            c == 32,
            0 <= i,
            i == c * (i / c) + i % c,
            i / c == c * ((i / c) / c) + (i / c) % c,
            i == (c * c) * (i / (c * c)) + i % (c * c),
            0 <= i % c < c,
            0 <= (i / c) % c < c,
            0 <= i % (c * c) < c * c,
    ;
}

/// Round trip: the block position rebuilt from any legal index serializes
/// back to that index.
pub proof fn lemma_index_round_trip(i: int)
    requires
        0 <= i < BLOCKS_PER_CHUNK,
    ensures
        block_index(i / ((CHUNK_SIZE * CHUNK_SIZE) as int), (i / (CHUNK_SIZE as int)) % (
        CHUNK_SIZE as int), i % (CHUNK_SIZE as int)) == i,
{
    lemma_block_index_of_div_mod(i);
}

/// Distinct in-range coordinates give distinct indices.
pub proof fn lemma_block_index_injective(x1: int, y1: int, z1: int, x2: int, y2: int, z2: int)
    requires
        0 <= x1 < CHUNK_SIZE,
        0 <= y1 < CHUNK_SIZE,
        0 <= z1 < CHUNK_SIZE,
        0 <= x2 < CHUNK_SIZE,
        0 <= y2 < CHUNK_SIZE,
        0 <= z2 < CHUNK_SIZE,
        block_index(x1, y1, z1) == block_index(x2, y2, z2),
    ensures
        x1 == x2 && y1 == y2 && z1 == z2,
{
    let c = CHUNK_SIZE as int;
    let i = block_index(x1, y1, z1);
    assert(x1 == x2 && y1 == y2 && z1 == z2) by (nonlinear_arith)
        requires
            c == 32,
            0 <= x1 < c && 0 <= y1 < c && 0 <= z1 < c,
            0 <= x2 < c && 0 <= y2 < c && 0 <= z2 < c,
            (x1 * c + y1) * c + z1 == (x2 * c + y2) * c + z2,
    ;
}

/// The position of a chunk in the world.
#[derive(Debug, Clone, Copy, PartialEq, Eq, Structural, Hash)]
pub struct ChunkPos {
    pub x: i64,
    pub y: i64,
    pub z: i64,
}

/// The little-endian bytes of a 64-bit signed integer.
pub open spec fn i64_le_bytes(v: i64) -> Seq<u8> {
    let u = v as u64;
    seq![
        (u & 0xff) as u8,
        ((u >> 8) & 0xff) as u8,
        ((u >> 16) & 0xff) as u8,
        ((u >> 24) & 0xff) as u8,
        ((u >> 32) & 0xff) as u8,
        ((u >> 40) & 0xff) as u8,
        ((u >> 48) & 0xff) as u8,
        ((u >> 56) & 0xff) as u8,
    ]
}

/// The 64-bit signed integer read little-endian from eight bytes.
pub open spec fn i64_from_le_bytes(s: Seq<u8>) -> i64 {
    ((s[0] as u64) | (s[1] as u64) << 8 | (s[2] as u64) << 16 | (s[3] as u64) << 24 | (
    s[4] as u64) << 32 | (s[5] as u64) << 40 | (s[6] as u64) << 48 | (s[7] as u64) << 56) as i64
}

/// Reading the little-endian bytes of an integer back gives the integer.
pub proof fn lemma_i64_le_round_trip(v: i64)
    ensures
        i64_from_le_bytes(i64_le_bytes(v)) == v,
{
    let s = i64_le_bytes(v);
    assert(s[0] == ((v as u64) & 0xff) as u8);
    assert(s[1] == (((v as u64) >> 8) & 0xff) as u8);
    assert(s[2] == (((v as u64) >> 16) & 0xff) as u8);
    assert(s[3] == (((v as u64) >> 24) & 0xff) as u8);
    assert(s[4] == (((v as u64) >> 32) & 0xff) as u8);
    assert(s[5] == (((v as u64) >> 40) & 0xff) as u8);
    assert(s[6] == (((v as u64) >> 48) & 0xff) as u8);
    assert(s[7] == (((v as u64) >> 56) & 0xff) as u8);
    assert((((((v as u64) & 0xff) as u8) as u64) | (((((v as u64) >> 8) & 0xff) as u8) as u64) << 8
        | (((((v as u64) >> 16) & 0xff) as u8) as u64) << 16 | (((((v as u64) >> 24)
        & 0xff) as u8) as u64) << 24 | (((((v as u64) >> 32) & 0xff) as u8) as u64) << 32 | (((((
    v as u64) >> 40) & 0xff) as u8) as u64) << 40 | (((((v as u64) >> 48) & 0xff) as u8) as u64)
        << 48 | (((((v as u64) >> 56) & 0xff) as u8) as u64) << 56) as i64 == v) by (bit_vector);
}

/// The 24-byte little-endian encoding of a chunk position, used as the
/// vertex-stage push constant.
pub open spec fn chunk_pos_bytes(p: ChunkPos) -> Seq<u8> {
    i64_le_bytes(p.x) + i64_le_bytes(p.y) + i64_le_bytes(p.z)
}

impl ChunkPos {
    pub fn new(x: i64, y: i64, z: i64) -> (r: Self)
        ensures
            r.x == x && r.y == y && r.z == z,
    {
        Self { x, y, z }
    }

    pub fn xyz(&self) -> (r: (i64, i64, i64))
        ensures
            r == (self.x, self.y, self.z),
    {
        (self.x, self.y, self.z)
    }

    pub fn x(&self) -> (r: i64)
        ensures
            r == self.x,
    {
        self.x
    }

    pub fn y(&self) -> (r: i64)
        ensures
            r == self.y,
    {
        self.y
    }

    pub fn z(&self) -> (r: i64)
        ensures
            r == self.z,
    {
        self.z
    }

    /// Drops the vertical coordinate; chunks in one column share it.
    pub fn flat(&self) -> (r: FlatChunkPos)
        ensures
            r.x == self.x && r.z == self.z,
    {
        FlatChunkPos::new(self.x, self.z)
    }

    /// The 24 bytes `(x, y, z)` packed little-endian, pushed to the vertex
    /// shader per draw.
    pub fn as_bytes(&self) -> (r: Vec<u8>)
        ensures
            r@ == chunk_pos_bytes(*self),
            r@.len() == 24,
    {
        let mut out: Vec<u8> = Vec::new();
        push_i64_le(&mut out, self.x);
        push_i64_le(&mut out, self.y);
        push_i64_le(&mut out, self.z);
        proof {
            assert(out@ =~= chunk_pos_bytes(*self));
        }
        out
    }

    /// The region this chunk belongs to: every coordinate divided by
    /// `REGION_SIZE`, rounding toward negative infinity.
    pub fn region(&self) -> (r: RegionPos)
        ensures
            r == region_of(*self),
            r.x == (self.x as int) / (REGION_SIZE as int),
            r.y == (self.y as int) / (REGION_SIZE as int),
            r.z == (self.z as int) / (REGION_SIZE as int),
    {
        RegionPos::new(floor_div_region(self.x), floor_div_region(self.y), floor_div_region(self.z))
    }

    /// Whether this position lies in the axis-aligned box `[a, b)`.
    pub fn between(&self, a: &Self, b: &Self) -> (r: bool)
        ensures
            r == (a.x <= self.x < b.x && a.y <= self.y < b.y && a.z <= self.z < b.z),
    {
        self.x >= a.x && self.y >= a.y && self.z >= a.z && self.x < b.x && self.y < b.y && self.z
            < b.z
    }
}

/// Appends the eight little-endian bytes of `v`.
fn push_i64_le(out: &mut Vec<u8>, v: i64)
    ensures
        final(out)@ == old(out)@ + i64_le_bytes(v),
{
    let u = v as u64;
    out.push((u & 0xff) as u8);
    out.push(((u >> 8) & 0xff) as u8);
    out.push(((u >> 16) & 0xff) as u8);
    out.push(((u >> 24) & 0xff) as u8);
    out.push(((u >> 32) & 0xff) as u8);
    out.push(((u >> 40) & 0xff) as u8);
    out.push(((u >> 48) & 0xff) as u8);
    out.push(((u >> 56) & 0xff) as u8);
    proof {
        assert(out@ =~= old(out)@ + i64_le_bytes(v));
    }
}

/// Reads a chunk position back from its 24-byte little-endian encoding.
pub fn chunk_pos_from_bytes(bytes: &Vec<u8>) -> (r: ChunkPos)
    requires
        bytes@.len() == 24,
    ensures
        r.x == i64_from_le_bytes(bytes@.subrange(0, 8)),
        r.y == i64_from_le_bytes(bytes@.subrange(8, 16)),
        r.z == i64_from_le_bytes(bytes@.subrange(16, 24)),
{
    let x = read_i64_le(bytes, 0);
    let y = read_i64_le(bytes, 8);
    let z = read_i64_le(bytes, 16);
    ChunkPos { x, y, z }
}

/// Reads eight little-endian bytes starting at `at`.
fn read_i64_le(bytes: &Vec<u8>, at: usize) -> (r: i64)
    requires
        at + 8 <= bytes@.len(),
    ensures
        r == i64_from_le_bytes(bytes@.subrange(at as int, at + 8)),
{
    let n = bytes.len();
    let u: u64 = (bytes[at] as u64) | (bytes[at + 1] as u64) << 8 | (bytes[at + 2] as u64) << 16 | (
    bytes[at + 3] as u64) << 24 | (bytes[at + 4] as u64) << 32 | (bytes[at + 5] as u64) << 40 | (
    bytes[at + 6] as u64) << 48 | (bytes[at + 7] as u64) << 56;
    let s = Ghost(bytes@.subrange(at as int, at + 8));
    proof {
        assert(s@[0] == bytes@[at as int]);
        assert(s@[1] == bytes@[at + 1]);
        assert(s@[2] == bytes@[at + 2]);
        assert(s@[3] == bytes@[at + 3]);
        assert(s@[4] == bytes@[at + 4]);
        assert(s@[5] == bytes@[at + 5]);
        assert(s@[6] == bytes@[at + 6]);
        assert(s@[7] == bytes@[at + 7]);
    }
    u as i64
}

/// The chunk-position encoding round-trips: re-reading the 24 bytes
/// little-endian gives back the same triple.
pub proof fn lemma_chunk_pos_bytes_round_trip(p: ChunkPos)
    ensures
        chunk_pos_bytes(p).len() == 24,
        i64_from_le_bytes(chunk_pos_bytes(p).subrange(0, 8)) == p.x,
        i64_from_le_bytes(chunk_pos_bytes(p).subrange(8, 16)) == p.y,
        i64_from_le_bytes(chunk_pos_bytes(p).subrange(16, 24)) == p.z,
{
    let s = chunk_pos_bytes(p);
    assert(s.subrange(0, 8) =~= i64_le_bytes(p.x));
    assert(s.subrange(8, 16) =~= i64_le_bytes(p.y));
    assert(s.subrange(16, 24) =~= i64_le_bytes(p.z));
    lemma_i64_le_round_trip(p.x);
    lemma_i64_le_round_trip(p.y);
    lemma_i64_le_round_trip(p.z);
}

/// Division by `REGION_SIZE` rounding toward negative infinity, as spec-level
/// Euclidean division does for a positive divisor.
fn floor_div_region(a: i64) -> (r: i64)
    ensures
        r == (a as int) / (REGION_SIZE as int),
{
    let d = REGION_SIZE as u64;
    if a >= 0 {
        let q = (a as u64) / d;
        proof {
            assert((a as u64) == a);
        }
        q as i64
    } else {
        // For negative a, write a = -b - 1 with b >= 0; then
        // floor(a / d) == -(b / d) - 1 for the remainder pattern below.
        let b = (-(a + 1)) as u64;
        let q = b / d;
        let r = b % d;
        proof {
            let ai = a as int;
            let bi = b as int;
            let di = REGION_SIZE as int;
            assert(bi == -ai - 1);
            lemma_fundamental_div_mod(bi, di);
            let qi = bi / di;
            let ri = bi % di;
            assert(ai == di * (-qi - 1) + (di - 1 - ri)) by (nonlinear_arith)
                requires
                    bi == di * qi + ri,
                    ai == -bi - 1,
            ;
            lemma_fundamental_div_mod_converse(ai, di, -qi - 1, di - 1 - ri);
        }
        -(q as i64) - 1
    }
}

/// The region a chunk belongs to, coordinatewise floor division by
/// `REGION_SIZE`.
pub open spec fn region_of(p: ChunkPos) -> RegionPos {
    RegionPos {
        x: ((p.x as int) / (REGION_SIZE as int)) as i64,
        y: ((p.y as int) / (REGION_SIZE as int)) as i64,
        z: ((p.z as int) / (REGION_SIZE as int)) as i64,
    }
}

/// The position of a block in the world: the chunk it is in and its place
/// inside that chunk.
#[derive(Debug, Clone, Copy, PartialEq, Eq, Structural, Hash)]
pub struct BlockPos {
    pub chunk_pos: ChunkPos,
    pub local_pos: LocalBlockPos,
}

impl BlockPos {
    /// The absolute block coordinates, wide enough never to overflow.
    pub fn to_vec(self) -> (r: (i128, i128, i128))
        ensures
            r.0 == self.chunk_pos.x * CHUNK_SIZE + self.local_pos.x,
            r.1 == self.chunk_pos.y * CHUNK_SIZE + self.local_pos.y,
            r.2 == self.chunk_pos.z * CHUNK_SIZE + self.local_pos.z,
    {
        let (x, y, z) = self.chunk_pos.xyz();
        (
            x as i128 * CHUNK_SIZE as i128 + self.local_pos.x as i128,
            y as i128 * CHUNK_SIZE as i128 + self.local_pos.y as i128,
            z as i128 * CHUNK_SIZE as i128 + self.local_pos.z as i128,
        )
    }
}

/// The 2D position of a chunk column.
#[derive(Debug, Clone, Copy, PartialEq, Eq, Structural, Hash)]
pub struct FlatChunkPos {
    pub x: i64,
    pub z: i64,
}

impl FlatChunkPos {
    pub fn new(x: i64, z: i64) -> (r: Self)
        ensures
            r.x == x && r.z == z,
    {
        Self { x, z }
    }

    pub fn x(&self) -> (r: i64)
        ensures
            r == self.x,
    {
        self.x
    }

    pub fn z(&self) -> (r: i64)
        ensures
            r == self.z,
    {
        self.z
    }
}

/// The position of a region, a `REGION_SIZE`-cube of chunks.
#[derive(Debug, Clone, Copy, PartialEq, Eq, Structural, Hash)]
pub struct RegionPos {
    pub x: i64,
    pub y: i64,
    pub z: i64,
}

impl RegionPos {
    pub fn new(x: i64, y: i64, z: i64) -> (r: Self)
        ensures
            r.x == x && r.y == y && r.z == z,
    {
        Self { x, y, z }
    }

    pub fn x(&self) -> (r: i64)
        ensures
            r == self.x,
    {
        self.x
    }

    pub fn y(&self) -> (r: i64)
        ensures
            r == self.y,
    {
        self.y
    }

    pub fn z(&self) -> (r: i64)
        ensures
            r == self.z,
    {
        self.z
    }
}

} // verus!
