//! World streaming: the chunk map around the player, per-tick loading and
//! eviction, and deferred destruction of the GPU buffers of evicted chunks.
//!
//! Each tick evicts every chunk farther than `DISCARD_DISTANCE` (Chebyshev)
//! from the player's chunk and loads missing chunks inside the
//! `RENDER_DISTANCE` cube, at most `MAX_LOADED_CHUNKS_PER_FRAME` of them,
//! so a large teleport cannot stall a frame. An evicted chunk's vertex
//! buffer joins a ring that holds it for `MAX_FRAMES_IN_FLIGHT` more ticks
//! before it may be destroyed, long enough for any in-flight GPU command
//! using it to finish.

use vstd::prelude::*;

use crate::chunk::ChunkBlocks;
use crate::pos::{region_of, ChunkPos, RegionPos};
use crate::{DISCARD_DISTANCE, MAX_FRAMES_IN_FLIGHT, RENDER_DISTANCE};

verus! {

/// Most chunks loaded per tick.
pub const MAX_LOADED_CHUNKS_PER_FRAME: usize = 1000;

/// A device-local vertex buffer installed on a chunk: its handle and how
/// many vertices it holds.
#[derive(Debug, Clone, Copy, PartialEq, Eq, Structural)]
pub struct VertexBuffer {
    pub id: u64,
    pub vertex_count: usize,
}

/// One chunk of the world map: its position, its generated blocks once the
/// generator has run, and its vertex buffer once meshing has uploaded.
#[derive(Debug)]
pub struct ChunkEntry {
    pub pos: ChunkPos,
    pub blocks: Option<ChunkBlocks>,
    pub vertex_buffer: Option<VertexBuffer>,
}

/// Whether `p` lies outside the discard cube around `pc`: farther than
/// `DISCARD_DISTANCE` on some axis.
pub open spec fn is_far(p: ChunkPos, pc: ChunkPos) -> bool {
    ||| p.x - pc.x > DISCARD_DISTANCE
    ||| pc.x - p.x > DISCARD_DISTANCE
    ||| p.y - pc.y > DISCARD_DISTANCE
    ||| pc.y - p.y > DISCARD_DISTANCE
    ||| p.z - pc.z > DISCARD_DISTANCE
    ||| pc.z - p.z > DISCARD_DISTANCE
}

/// Whether `p` lies inside the load cube around `pc`: within
/// `RENDER_DISTANCE` on every axis.
pub open spec fn in_load_cube(p: ChunkPos, pc: ChunkPos) -> bool {
    &&& -(RENDER_DISTANCE as int) <= p.x - pc.x <= RENDER_DISTANCE
    &&& -(RENDER_DISTANCE as int) <= p.y - pc.y <= RENDER_DISTANCE
    &&& -(RENDER_DISTANCE as int) <= p.z - pc.z <= RENDER_DISTANCE
}

/// Whether the map holds an entry at `p`.
pub open spec fn contains_pos(s: Seq<ChunkEntry>, p: ChunkPos) -> bool {
    exists|k: int| 0 <= k < s.len() && s[k].pos == p
}

/// No two entries share a position.
pub open spec fn unique_keys(s: Seq<ChunkEntry>) -> bool {
    forall|k1: int, k2: int| 0 <= k1 < k2 < s.len() ==> s[k1].pos != s[k2].pos
}

/// The entries that survive an eviction around `pc`, in map order.
pub open spec fn kept_entries(s: Seq<ChunkEntry>, pc: ChunkPos) -> Seq<ChunkEntry>
    decreases s.len(),
{
    if s.len() == 0 {
        Seq::empty()
    } else {
        kept_entries(s.drop_last(), pc) + if is_far(s.last().pos, pc) {
            Seq::empty()
        } else {
            seq![s.last()]
        }
    }
}

/// The positions of the entries an eviction around `pc` removes, in map
/// order.
pub open spec fn evicted_positions(s: Seq<ChunkEntry>, pc: ChunkPos) -> Seq<ChunkPos>
    decreases s.len(),
{
    if s.len() == 0 {
        Seq::empty()
    } else {
        evicted_positions(s.drop_last(), pc) + if is_far(s.last().pos, pc) {
            seq![s.last().pos]
        } else {
            Seq::empty()
        }
    }
}

/// The vertex buffers the evicted entries give up, in map order.
pub open spec fn evicted_buffers(s: Seq<ChunkEntry>, pc: ChunkPos) -> Seq<VertexBuffer>
    decreases s.len(),
{
    if s.len() == 0 {
        Seq::empty()
    } else {
        evicted_buffers(s.drop_last(), pc) + if is_far(s.last().pos, pc) {
            match s.last().vertex_buffer {
                Some(vb) => seq![vb],
                None => Seq::empty(),
            }
        } else {
            Seq::empty()
        }
    }
}

/// When nothing is out of range, eviction keeps the whole map unchanged.
pub proof fn lemma_kept_all(s: Seq<ChunkEntry>, pc: ChunkPos)
    requires
        forall|k: int| 0 <= k < s.len() ==> !is_far((#[trigger] s[k]).pos, pc),
    ensures
        kept_entries(s, pc) =~= s,
    decreases s.len(),
{
    if s.len() > 0 {
        lemma_kept_all(s.drop_last(), pc);
    }
}

/// Every kept entry is one of the original entries.
pub proof fn lemma_kept_membership(s: Seq<ChunkEntry>, pc: ChunkPos)
    ensures
        forall|k: int|
            0 <= k < kept_entries(s, pc).len() ==> exists|k2: int|
                0 <= k2 < s.len() && (#[trigger] s[k2]) == #[trigger] kept_entries(s, pc)[k],
    decreases s.len(),
{
    if s.len() > 0 {
        lemma_kept_membership(s.drop_last(), pc);
        let kd = kept_entries(s.drop_last(), pc);
        assert forall|k: int|
            0 <= k < kept_entries(s, pc).len() implies exists|k2: int|
                0 <= k2 < s.len() && (#[trigger] s[k2]) == (#[trigger] kept_entries(s, pc)[k]) by {
            if k < kd.len() {
                let k3 = choose|k3: int|
                    0 <= k3 < s.drop_last().len() && s.drop_last()[k3] == kd[k];
                assert(s[k3] == kept_entries(s, pc)[k]);
            } else {
                assert(kept_entries(s, pc)[k] == s.last());
                assert(s[s.len() - 1] == kept_entries(s, pc)[k]);
            }
        }
    }
}

/// Eviction keeps the keys unique.
pub proof fn lemma_kept_unique(s: Seq<ChunkEntry>, pc: ChunkPos)
    requires
        unique_keys(s),
    ensures
        unique_keys(kept_entries(s, pc)),
    decreases s.len(),
{
    if s.len() > 0 {
        assert(unique_keys(s.drop_last()));
        lemma_kept_unique(s.drop_last(), pc);
        lemma_kept_membership(s.drop_last(), pc);
        let kd = kept_entries(s.drop_last(), pc);
        assert forall|k1: int, k2: int|
            0 <= k1 < k2 < kept_entries(s, pc).len() implies kept_entries(s, pc)[k1].pos
            != kept_entries(s, pc)[k2].pos by {
            if k2 < kd.len() {
                assert(kd[k1].pos != kd[k2].pos);
            } else {
                // the appended entry is the original last one, whose key
                // differs from every earlier original entry
                assert(kept_entries(s, pc)[k2] == s.last());
                let k3 = choose|k3: int|
                    0 <= k3 < s.drop_last().len() && s.drop_last()[k3] == kd[k1];
                assert(s[k3] == kd[k1]);
                assert(s[k3].pos != s[s.len() - 1].pos);
            }
        }
    }
}

/// The ring of buffers waiting to be destroyed: each tick rotates one slot
/// forward, so a buffer put in now leaves only `MAX_FRAMES_IN_FLIGHT`
/// ticks later.
#[derive(Debug)]
pub struct WaitingForDeleteBuffers {
    pub buffers: Vec<Vec<VertexBuffer>>,
    pub index: usize,
}

/// The buffers the next ring rotation hands out for destruction.
pub open spec fn ring_destroyed(w: WaitingForDeleteBuffers) -> Seq<VertexBuffer> {
    w.buffers@[w.index as int]@
}

impl WaitingForDeleteBuffers {
    pub open spec fn wf(&self) -> bool {
        &&& self.buffers@.len() == MAX_FRAMES_IN_FLIGHT
        &&& self.index < MAX_FRAMES_IN_FLIGHT
    }

    pub fn new() -> (r: Self)
        ensures
            r.wf(),
            r.index == 0,
            forall|k: int| 0 <= k < MAX_FRAMES_IN_FLIGHT ==> (#[trigger] r.buffers@[k])@.len() == 0,
    {
        let mut buffers: Vec<Vec<VertexBuffer>> = Vec::new();
        let empty1: Vec<VertexBuffer> = Vec::new();
        let empty2: Vec<VertexBuffer> = Vec::new();
        buffers.push(empty1);
        buffers.push(empty2);
        WaitingForDeleteBuffers { buffers, index: 0 }
    }

    /// Rotates the ring: returns the buffers whose grace period just ended
    /// and stores this tick's evicted buffers in their slot.
    pub fn tick(&mut self, new_buffs: Vec<VertexBuffer>) -> (destroyed: Vec<VertexBuffer>)
        requires
            old(self).wf(),
        ensures
            final(self).wf(),
            destroyed@ == ring_destroyed(*old(self)),
            final(self).index == (old(self).index + 1) % (MAX_FRAMES_IN_FLIGHT as int),
            final(self).buffers@.len() == MAX_FRAMES_IN_FLIGHT,
            final(self).buffers@[old(self).index as int]@ == new_buffs@,
            forall|k: int|
                0 <= k < MAX_FRAMES_IN_FLIGHT && k != old(self).index ==> (
                #[trigger] final(self).buffers@[k]) == old(self).buffers@[k],
    {
        let mut slot = new_buffs;
        let idx = self.index;
        core::mem::swap(&mut self.buffers[idx], &mut slot);
        self.index = (self.index + 1) % MAX_FRAMES_IN_FLIGHT;
        slot
    }
}

/// A buffer that enters the ring now is not among what this rotation or
/// the next one destroys; the rotation after that, the
/// `MAX_FRAMES_IN_FLIGHT`-th, is the one that hands it out. Any GPU work
/// that referenced the buffer when it was evicted has finished by then.
pub proof fn lemma_deferred_destruction_delay(
    w0: WaitingForDeleteBuffers,
    w1: WaitingForDeleteBuffers,
    w2: WaitingForDeleteBuffers,
    b1: Seq<VertexBuffer>,
    b2: Seq<VertexBuffer>,
    v: VertexBuffer,
)
    requires
        w0.wf(),
        forall|k: int| 0 <= k < MAX_FRAMES_IN_FLIGHT ==> !(#[trigger] w0.buffers@[k])@.contains(v),
        b1.contains(v),
        // w1 is w0 after a rotation that stored b1; w2 is w1 after one that
        // stored b2 (the shape WaitingForDeleteBuffers::tick ensures)
        w1.wf(),
        w1.index == (w0.index + 1) % (MAX_FRAMES_IN_FLIGHT as int),
        w1.buffers@.len() == MAX_FRAMES_IN_FLIGHT,
        w1.buffers@[w0.index as int]@ == b1,
        forall|k: int|
            0 <= k < MAX_FRAMES_IN_FLIGHT && k != w0.index ==> (#[trigger] w1.buffers@[k])
                == w0.buffers@[k],
        w2.wf(),
        w2.index == (w1.index + 1) % (MAX_FRAMES_IN_FLIGHT as int),
        w2.buffers@.len() == MAX_FRAMES_IN_FLIGHT,
        w2.buffers@[w1.index as int]@ == b2,
        forall|k: int|
            0 <= k < MAX_FRAMES_IN_FLIGHT && k != w1.index ==> (#[trigger] w2.buffers@[k])
                == w1.buffers@[k],
    ensures
        !ring_destroyed(w0).contains(v),
        !ring_destroyed(w1).contains(v),
        ring_destroyed(w2).contains(v),
{
    assert(w1.index != w0.index);
    assert(w2.index == w0.index);
    assert(ring_destroyed(w1) == w0.buffers@[w1.index as int]@);
    assert(ring_destroyed(w2) == w1.buffers@[w0.index as int]@);
}

/// What one world tick decided: the chunks to hand to the generator, the
/// regions whose command buffers went stale, and the buffers whose grace
/// period ended.
#[derive(Debug)]
pub struct TickResult {
    pub loaded: Vec<ChunkPos>,
    pub evicted_regions: Vec<RegionPos>,
    pub destroyed_buffers: Vec<VertexBuffer>,
}

/// The world: the map of loaded chunks and the deferred-destruction ring.
#[derive(Debug)]
pub struct World {
    pub chunks: Vec<ChunkEntry>,
    pub waiting_for_delete_buffers: WaitingForDeleteBuffers,
    pub created_chunks_total: u64,
}

impl World {
    pub open spec fn wf(&self) -> bool {
        &&& unique_keys(self.chunks@)
        &&& self.waiting_for_delete_buffers.wf()
    }

    pub fn new() -> (r: Self)
        ensures
            r.wf(),
            r.chunks@.len() == 0,
            r.created_chunks_total == 0,
    {
        World {
            chunks: Vec::new(),
            waiting_for_delete_buffers: WaitingForDeleteBuffers::new(),
            created_chunks_total: 0,
        }
    }

    pub fn len(&self) -> (r: usize)
        ensures
            r == self.chunks@.len(),
    {
        self.chunks.len()
    }

    /// The index of the entry at `pos`, if the map holds one.
    fn index_of(&self, pos: ChunkPos) -> (r: Option<usize>)
        ensures
            r matches Some(k) ==> k < self.chunks@.len() && self.chunks@[k as int].pos == pos,
            r is None ==> !contains_pos(self.chunks@, pos),
    {
        let mut k: usize = 0;
        while k < self.chunks.len()
            invariant
                0 <= k <= self.chunks@.len(),
                forall|j: int| 0 <= j < k ==> (#[trigger] self.chunks@[j]).pos != pos,
            decreases self.chunks@.len() - k,
        {
            if self.chunks[k].pos == pos {
                return Some(k);
            }
            k = k + 1;
        }
        None
    }

    /// The entry at `pos`, if the map holds one.
    pub fn get(&self, pos: ChunkPos) -> (r: Option<&ChunkEntry>)
        ensures
            r matches Some(e) ==> e.pos == pos && exists|k: int|
                0 <= k < self.chunks@.len() && self.chunks@[k] == *e,
            r is None ==> !contains_pos(self.chunks@, pos),
    {
        match self.index_of(pos) {
            Some(k) => Some(&self.chunks[k]),
            None => None,
        }
    }

    /// Whether the map holds a chunk at `pos`.
    pub fn contains(&self, pos: ChunkPos) -> (r: bool)
        ensures
            r == contains_pos(self.chunks@, pos),
    {
        self.index_of(pos).is_some()
    }

    /// Inserts a fresh, not yet generated chunk at `pos` and reports `true`;
    /// reports `false` when the position is already loaded.
    pub fn load(&mut self, pos: ChunkPos) -> (r: bool)
        requires
            old(self).wf(),
        ensures
            final(self).wf(),
            r == !contains_pos(old(self).chunks@, pos),
            r ==> final(self).chunks@ == old(self).chunks@ + seq![
                (ChunkEntry { pos, blocks: None, vertex_buffer: None }),
            ],
            !r ==> final(self).chunks@ == old(self).chunks@,
            contains_pos(final(self).chunks@, pos),
            final(self).waiting_for_delete_buffers == old(self).waiting_for_delete_buffers,
            final(self).created_chunks_total == if r && old(self).created_chunks_total
                < u64::MAX {
                old(self).created_chunks_total + 1
            } else {
                old(self).created_chunks_total as int
            },
    {
        match self.index_of(pos) {
            Some(k) => {
                proof {
                    assert(contains_pos(self.chunks@, pos));
                }
                false
            },
            None => {
                let ghost s0 = self.chunks@;
                self.chunks.push(ChunkEntry { pos, blocks: None, vertex_buffer: None });
                if self.created_chunks_total < u64::MAX {
                    self.created_chunks_total = self.created_chunks_total + 1;
                }
                proof {
                    assert forall|k1: int, k2: int|
                        0 <= k1 < k2 < self.chunks@.len() implies self.chunks@[k1].pos
                        != self.chunks@[k2].pos by {
                        if k2 == self.chunks@.len() - 1 {
                            assert(self.chunks@[k1] == s0[k1]);
                        }
                    }
                    assert(self.chunks@[self.chunks@.len() - 1].pos == pos);
                }
                true
            },
        }
    }

    /// Stores the generator's output on the chunk at `pos` and reports
    /// whether the chunk should go on to the mesher: a chunk without a
    /// single solid block never does, and neither does one that was
    /// evicted while it sat in the generator queue.
    pub fn on_generated(&mut self, pos: ChunkPos, blocks: ChunkBlocks) -> (r: bool)
        requires
            old(self).wf(),
            blocks.wf(),
        ensures
            final(self).wf(),
            !contains_pos(old(self).chunks@, pos) ==> (r == false && final(self).chunks@ == old(self).chunks@),
            contains_pos(old(self).chunks@, pos) ==> {
                &&& r == (blocks.solid_blocks_count != 0)
                &&& exists|k: int|
                    {
                        &&& 0 <= k < old(self).chunks@.len()
                        &&& old(self).chunks@[k].pos == pos
                        &&& final(self).chunks@ == old(self).chunks@.update(
                            k,
                            (ChunkEntry {
                                pos,
                                blocks: Some(blocks),
                                vertex_buffer: old(self).chunks@[k].vertex_buffer,
                            }),
                        )
                    }
            },
            final(self).waiting_for_delete_buffers == old(self).waiting_for_delete_buffers,
            final(self).created_chunks_total == old(self).created_chunks_total,
    {
        let solid = blocks.solid_blocks_count;
        match self.index_of(pos) {
            None => false,
            Some(k) => {
                let ghost s0 = self.chunks@;
                let entry = &mut self.chunks[k];
                let vb = entry.vertex_buffer;
                *entry = ChunkEntry { pos, blocks: Some(blocks), vertex_buffer: vb };
                proof {
                    assert(contains_pos(s0, pos));
                    assert forall|k1: int, k2: int|
                        0 <= k1 < k2 < self.chunks@.len() implies self.chunks@[k1].pos
                        != self.chunks@[k2].pos by {
                        assert(s0[k1].pos != s0[k2].pos);
                        assert(self.chunks@[k1].pos == s0[k1].pos);
                        assert(self.chunks@[k2].pos == s0[k2].pos);
                    }
                }
                solid != 0
            },
        }
    }

    /// Installs the uploaded vertex buffer on the chunk at `pos`, the step
    /// the mesher performs once the copy fence has signaled. Returns the
    /// region to re-record, or nothing when the chunk was evicted while
    /// its upload was in flight.
    pub fn install_vertex_buffer(&mut self, pos: ChunkPos, vb: VertexBuffer) -> (r: Option<
        RegionPos,
    >)
        requires
            old(self).wf(),
        ensures
            final(self).wf(),
            !contains_pos(old(self).chunks@, pos) ==> (r is None && final(self).chunks@ == old(self).chunks@),
            contains_pos(old(self).chunks@, pos) ==> {
                &&& r == Some(region_of(pos))
                &&& exists|k: int|
                    {
                        &&& 0 <= k < old(self).chunks@.len()
                        &&& old(self).chunks@[k].pos == pos
                        &&& final(self).chunks@ == old(self).chunks@.update(
                            k,
                            (ChunkEntry {
                                pos,
                                blocks: old(self).chunks@[k].blocks,
                                vertex_buffer: Some(vb),
                            }),
                        )
                    }
            },
            final(self).waiting_for_delete_buffers == old(self).waiting_for_delete_buffers,
            final(self).created_chunks_total == old(self).created_chunks_total,
    {
        match self.index_of(pos) {
            None => None,
            Some(k) => {
                let ghost s0 = self.chunks@;
                let entry = &mut self.chunks[k];
                let mut swapped = ChunkEntry { pos, blocks: None, vertex_buffer: Some(vb) };
                core::mem::swap(entry, &mut swapped);
                let entry2 = &mut self.chunks[k];
                entry2.blocks = swapped.blocks;
                proof {
                    assert(contains_pos(s0, pos));
                    assert(self.chunks@ =~= s0.update(
                        k as int,
                        (ChunkEntry {
                            pos,
                            blocks: s0[k as int].blocks,
                            vertex_buffer: Some(vb),
                        }),
                    ));
                    assert forall|k1: int, k2: int|
                        0 <= k1 < k2 < self.chunks@.len() implies self.chunks@[k1].pos
                        != self.chunks@[k2].pos by {
                        assert(s0[k1].pos != s0[k2].pos);
                        assert(self.chunks@[k1].pos == s0[k1].pos);
                        assert(self.chunks@[k2].pos == s0[k2].pos);
                    }
                }
                Some(pos.region())
            },
        }
    }
}


/// An entry that survives eviction is found again in the kept map.
pub proof fn lemma_kept_contains(s: Seq<ChunkEntry>, pc: ChunkPos, p: ChunkPos)
    requires
        contains_pos(s, p),
        !is_far(p, pc),
    ensures
        contains_pos(kept_entries(s, pc), p),
    decreases s.len(),
{
    let k = choose|k: int| 0 <= k < s.len() && s[k].pos == p;
    if k == s.len() - 1 {
        let kept = kept_entries(s, pc);
        assert(kept[kept.len() - 1] == s[k]);
    } else {
        assert(s.drop_last()[k] == s[k]);
        lemma_kept_contains(s.drop_last(), pc, p);
        let kd = kept_entries(s.drop_last(), pc);
        let j = choose|j: int| 0 <= j < kd.len() && kd[j].pos == p;
        assert(kept_entries(s, pc)[j] == kd[j]);
    }
}

/// The chunk position at offset `(ax, ay, az)` from `pc`.
pub open spec fn cube_pos(pc: ChunkPos, ax: int, ay: int, az: int) -> ChunkPos {
    ChunkPos { x: (pc.x + ax) as i64, y: (pc.y + ay) as i64, z: (pc.z + az) as i64 }
}

/// Whether `p` lies farther than `DISCARD_DISTANCE` from `pc` on some
/// axis, without risking overflow on extreme coordinates.
fn chunk_out_of_range(p: ChunkPos, pc: ChunkPos) -> (r: bool)
    ensures
        r == is_far(p, pc),
{
    let d = DISCARD_DISTANCE as i128;
    let dx = p.x as i128 - pc.x as i128;
    let dy = p.y as i128 - pc.y as i128;
    let dz = p.z as i128 - pc.z as i128;
    dx > d || dx < -d || dy > d || dy < -d || dz > d || dz < -d
}

impl World {
    /// One streaming tick around the player's chunk: evicts every chunk
    /// outside the discard cube, rotates the deferred-destruction ring,
    /// and loads missing chunks of the render cube, up to the per-tick
    /// bound. Two ticks from the same position load nothing new once the
    /// first has converged.
    pub fn tick(&mut self, player_chunk: ChunkPos) -> (r: TickResult)
        requires
            old(self).wf(),
            i64::MIN + RENDER_DISTANCE <= player_chunk.x <= i64::MAX - RENDER_DISTANCE,
            i64::MIN + RENDER_DISTANCE <= player_chunk.y <= i64::MAX - RENDER_DISTANCE,
            i64::MIN + RENDER_DISTANCE <= player_chunk.z <= i64::MAX - RENDER_DISTANCE,
        ensures
            final(self).wf(),
            // the map: the kept entries in order, then the fresh ones
            final(self).chunks@.len() == kept_entries(old(self).chunks@, player_chunk).len()
                + r.loaded@.len(),
            final(self).chunks@.subrange(
                0,
                kept_entries(old(self).chunks@, player_chunk).len() as int,
            ) == kept_entries(old(self).chunks@, player_chunk),
            forall|k: int|
                0 <= k < r.loaded@.len() ==> final(self).chunks@[kept_entries(
                    old(self).chunks@,
                    player_chunk,
                ).len() + k] == (ChunkEntry {
                    pos: r.loaded@[k],
                    blocks: None,
                    vertex_buffer: None,
                }),
            // what was loaded: missing positions of the render cube, boundedly many
            r.loaded@.len() <= MAX_LOADED_CHUNKS_PER_FRAME,
            forall|k: int|
                0 <= k < r.loaded@.len() ==> in_load_cube(#[trigger] r.loaded@[k], player_chunk)
                    && !contains_pos(old(self).chunks@, r.loaded@[k]),
            r.loaded@.len() < MAX_LOADED_CHUNKS_PER_FRAME ==> forall|p: ChunkPos|
                in_load_cube(p, player_chunk) ==> contains_pos(final(self).chunks@, p),
            // ticking twice in place changes nothing further
            ((forall|p: ChunkPos|
                in_load_cube(p, player_chunk) ==> contains_pos(old(self).chunks@, p)) && (forall|
                k: int,
            |
                0 <= k < old(self).chunks@.len() ==> !is_far(
                    (#[trigger] old(self).chunks@[k]).pos,
                    player_chunk,
                ))) ==> (final(self).chunks@ == old(self).chunks@ && r.loaded@.len() == 0),
            // eviction: regions to invalidate, buffers into the ring, ring rotation
            r.evicted_regions@.len() == evicted_positions(old(self).chunks@, player_chunk).len(),
            forall|k: int|
                0 <= k < r.evicted_regions@.len() ==> r.evicted_regions@[k] == region_of(
                    evicted_positions(old(self).chunks@, player_chunk)[k],
                ),
            r.destroyed_buffers@ == ring_destroyed(old(self).waiting_for_delete_buffers),
            final(self).waiting_for_delete_buffers.index == (old(self).waiting_for_delete_buffers.index + 1) % (MAX_FRAMES_IN_FLIGHT as int),
            final(self).waiting_for_delete_buffers.buffers@[old(self).waiting_for_delete_buffers.index as int]@ == evicted_buffers(
                old(self).chunks@,
                player_chunk,
            ),
            forall|k: int|
                0 <= k < MAX_FRAMES_IN_FLIGHT && k != old(self).waiting_for_delete_buffers.index
                    ==> (#[trigger] final(self).waiting_for_delete_buffers.buffers@[k]) == old(self).waiting_for_delete_buffers.buffers@[k],
            // the created-chunks counter grows by what was loaded
            old(self).created_chunks_total + r.loaded@.len() <= u64::MAX ==> final(self).created_chunks_total == old(self).created_chunks_total + r.loaded@.len(),
    {
        let ghost s0 = self.chunks@;
        let ghost pc = player_chunk;

        // Evict everything outside the discard cube, collecting the stale
        // regions and the buffers whose grace period starts now.
        let mut evicted_vbs: Vec<VertexBuffer> = Vec::new();
        let mut evicted_regions: Vec<RegionPos> = Vec::new();
        let mut i: usize = 0;
        let ghost mut j: int = 0;
        while i < self.chunks.len()
            invariant
                pc == player_chunk,
                unique_keys(s0),
                0 <= i,
                i as int == kept_entries(s0.subrange(0, j), pc).len(),
                0 <= j <= s0.len(),
                self.chunks@ =~= kept_entries(s0.subrange(0, j), pc) + s0.subrange(
                    j,
                    s0.len() as int,
                ),
                evicted_vbs@ == evicted_buffers(s0.subrange(0, j), pc),
                evicted_regions@.len() == evicted_positions(s0.subrange(0, j), pc).len(),
                forall|k: int|
                    0 <= k < evicted_regions@.len() ==> evicted_regions@[k] == region_of(
                        evicted_positions(s0.subrange(0, j), pc)[k],
                    ),
                self.waiting_for_delete_buffers == old(self).waiting_for_delete_buffers,
                self.waiting_for_delete_buffers.wf(),
                self.created_chunks_total == old(self).created_chunks_total,
            decreases s0.len() - j,
        {
            proof {
                assert(s0.subrange(0, j + 1).drop_last() =~= s0.subrange(0, j));
                assert(s0.subrange(0, j + 1).last() == s0[j]);
                assert(self.chunks@[i as int] == s0[j]);
            }
            let pos_here = self.chunks[i].pos;
            if chunk_out_of_range(pos_here, player_chunk) {
                let e = self.chunks.remove(i);
                evicted_regions.push(e.pos.region());
                match e.vertex_buffer {
                    Some(vb) => evicted_vbs.push(vb),
                    None => (),
                }
                proof {
                    assert(kept_entries(s0.subrange(0, j + 1), pc) =~= kept_entries(
                        s0.subrange(0, j),
                        pc,
                    ));
                    assert(evicted_positions(s0.subrange(0, j + 1), pc) =~= evicted_positions(
                        s0.subrange(0, j),
                        pc,
                    ) + seq![s0[j].pos]);
                    assert(self.chunks@ =~= kept_entries(s0.subrange(0, j + 1), pc) + s0.subrange(
                        j + 1,
                        s0.len() as int,
                    ));
                    assert(evicted_vbs@ =~= evicted_buffers(s0.subrange(0, j + 1), pc));
                }
            } else {
                i = i + 1;
                proof {
                    assert(kept_entries(s0.subrange(0, j + 1), pc) =~= kept_entries(
                        s0.subrange(0, j),
                        pc,
                    ) + seq![s0[j]]);
                    assert(evicted_positions(s0.subrange(0, j + 1), pc) =~= evicted_positions(
                        s0.subrange(0, j),
                        pc,
                    ));
                    assert(self.chunks@ =~= kept_entries(s0.subrange(0, j + 1), pc) + s0.subrange(
                        j + 1,
                        s0.len() as int,
                    ));
                    assert(evicted_vbs@ =~= evicted_buffers(s0.subrange(0, j + 1), pc));
                }
            }
            proof {
                j = j + 1;
            }
        }
        proof {
            assert(s0.subrange(0, s0.len() as int) =~= s0);
            assert(self.chunks@ =~= kept_entries(s0, pc));
        }

        // Rotate the ring: what went in MAX_FRAMES_IN_FLIGHT ticks ago
        // comes out for destruction now.
        let destroyed = self.waiting_for_delete_buffers.tick(evicted_vbs);

        // Load the missing chunks of the render cube, bounded per tick.
        let ghost s1 = self.chunks@;
        let ghost hyp = (forall|p: ChunkPos| in_load_cube(p, pc) ==> contains_pos(s0, p)) && (
        forall|k: int| 0 <= k < s0.len() ==> !is_far((#[trigger] s0[k]).pos, pc));
        proof {
            if hyp {
                lemma_kept_all(s0, pc);
            }
        }
        proof {
            lemma_kept_unique(s0, pc);
            assert(self.chunks@.subrange(0, s1.len() as int) =~= s1);
        }
        let mut loaded: Vec<ChunkPos> = Vec::new();
        let rd = RENDER_DISTANCE as i64;
        let mut dx: i64 = -rd;
        while dx <= rd
            invariant
                pc == player_chunk,
                unique_keys(self.chunks@),
                -rd <= dx <= rd + 1,
                rd == RENDER_DISTANCE as i64,
                i64::MIN + RENDER_DISTANCE <= pc.x <= i64::MAX - RENDER_DISTANCE,
                i64::MIN + RENDER_DISTANCE <= pc.y <= i64::MAX - RENDER_DISTANCE,
                i64::MIN + RENDER_DISTANCE <= pc.z <= i64::MAX - RENDER_DISTANCE,
                self.chunks@.len() == s1.len() + loaded@.len(),
                self.chunks@.subrange(0, s1.len() as int) == s1,
                forall|k: int|
                    0 <= k < loaded@.len() ==> self.chunks@[s1.len() + k] == (ChunkEntry {
                        pos: loaded@[k],
                        blocks: None,
                        vertex_buffer: None,
                    }),
                loaded@.len() <= MAX_LOADED_CHUNKS_PER_FRAME,
                forall|k: int|
                    0 <= k < loaded@.len() ==> in_load_cube(#[trigger] loaded@[k], pc)
                        && !contains_pos(s1, loaded@[k]),
                loaded@.len() < MAX_LOADED_CHUNKS_PER_FRAME ==> forall|ax: int, ay: int, az: int|
                    -(RENDER_DISTANCE as int) <= ax < dx && -(RENDER_DISTANCE as int) <= ay
                        <= RENDER_DISTANCE && -(RENDER_DISTANCE as int) <= az <= RENDER_DISTANCE
                        ==> contains_pos(self.chunks@, #[trigger] cube_pos(pc, ax, ay, az)),
                hyp == ((forall|p: ChunkPos| in_load_cube(p, pc) ==> contains_pos(s0, p)) && (
                forall|k: int| 0 <= k < s0.len() ==> !is_far((#[trigger] s0[k]).pos, pc))),
                hyp ==> s1 == s0,
                hyp ==> loaded@.len() == 0,
                self.created_chunks_total as int == if old(self).created_chunks_total
                    + loaded@.len() <= u64::MAX {
                    old(self).created_chunks_total + loaded@.len()
                } else {
                    u64::MAX as int
                },
                self.waiting_for_delete_buffers.wf(),
                self.waiting_for_delete_buffers.index == (old(self).waiting_for_delete_buffers.index + 1) % (MAX_FRAMES_IN_FLIGHT as int),
                self.waiting_for_delete_buffers.buffers@.len() == MAX_FRAMES_IN_FLIGHT,
                self.waiting_for_delete_buffers.buffers@[old(self).waiting_for_delete_buffers.index as int]@ == evicted_buffers(s0, pc),
                forall|k: int|
                    0 <= k < MAX_FRAMES_IN_FLIGHT && k != old(self).waiting_for_delete_buffers.index ==> (
                    #[trigger] self.waiting_for_delete_buffers.buffers@[k]) == old(self).waiting_for_delete_buffers.buffers@[k],
            decreases rd - dx + 1,
        {
            let mut dy: i64 = -rd;
            while dy <= rd
                invariant
                    pc == player_chunk,
                    unique_keys(self.chunks@),
                    -rd <= dx <= rd,
                    -rd <= dy <= rd + 1,
                    rd == RENDER_DISTANCE as i64,
                    i64::MIN + RENDER_DISTANCE <= pc.x <= i64::MAX - RENDER_DISTANCE,
                    i64::MIN + RENDER_DISTANCE <= pc.y <= i64::MAX - RENDER_DISTANCE,
                    i64::MIN + RENDER_DISTANCE <= pc.z <= i64::MAX - RENDER_DISTANCE,
                    self.chunks@.len() == s1.len() + loaded@.len(),
                    self.chunks@.subrange(0, s1.len() as int) == s1,
                    forall|k: int|
                        0 <= k < loaded@.len() ==> self.chunks@[s1.len() + k] == (ChunkEntry {
                            pos: loaded@[k],
                            blocks: None,
                            vertex_buffer: None,
                        }),
                    loaded@.len() <= MAX_LOADED_CHUNKS_PER_FRAME,
                    forall|k: int|
                        0 <= k < loaded@.len() ==> in_load_cube(#[trigger] loaded@[k], pc)
                            && !contains_pos(s1, loaded@[k]),
                    loaded@.len() < MAX_LOADED_CHUNKS_PER_FRAME ==> forall|
                        ax: int,
                        ay: int,
                        az: int,
                    |
                        (-(RENDER_DISTANCE as int) <= ax < dx && -(RENDER_DISTANCE as int) <= ay
                            <= RENDER_DISTANCE && -(RENDER_DISTANCE as int) <= az
                            <= RENDER_DISTANCE) || (ax == dx && -(RENDER_DISTANCE as int) <= ay
                            < dy && -(RENDER_DISTANCE as int) <= az <= RENDER_DISTANCE)
                            ==> contains_pos(self.chunks@, #[trigger] cube_pos(pc, ax, ay, az)),
                    hyp == ((forall|p: ChunkPos| in_load_cube(p, pc) ==> contains_pos(s0, p)) && (
                    forall|k: int| 0 <= k < s0.len() ==> !is_far((#[trigger] s0[k]).pos, pc))),
                    hyp ==> s1 == s0,
                    hyp ==> loaded@.len() == 0,
                    self.created_chunks_total as int == if old(self).created_chunks_total
                        + loaded@.len() <= u64::MAX {
                        old(self).created_chunks_total + loaded@.len()
                    } else {
                        u64::MAX as int
                    },
                    self.waiting_for_delete_buffers.wf(),
                    self.waiting_for_delete_buffers.index == (old(self).waiting_for_delete_buffers.index + 1) % (MAX_FRAMES_IN_FLIGHT as int),
                    self.waiting_for_delete_buffers.buffers@.len() == MAX_FRAMES_IN_FLIGHT,
                    self.waiting_for_delete_buffers.buffers@[old(self).waiting_for_delete_buffers.index as int]@ == evicted_buffers(s0, pc),
                    forall|k: int|
                        0 <= k < MAX_FRAMES_IN_FLIGHT && k != old(self).waiting_for_delete_buffers.index ==> (
                        #[trigger] self.waiting_for_delete_buffers.buffers@[k]) == old(self).waiting_for_delete_buffers.buffers@[k],
                decreases rd - dy + 1,
            {
                let mut dz: i64 = -rd;
                while dz <= rd
                    invariant
                        pc == player_chunk,
                        unique_keys(self.chunks@),
                        -rd <= dx <= rd,
                        -rd <= dy <= rd,
                        -rd <= dz <= rd + 1,
                        rd == RENDER_DISTANCE as i64,
                        i64::MIN + RENDER_DISTANCE <= pc.x <= i64::MAX - RENDER_DISTANCE,
                        i64::MIN + RENDER_DISTANCE <= pc.y <= i64::MAX - RENDER_DISTANCE,
                        i64::MIN + RENDER_DISTANCE <= pc.z <= i64::MAX - RENDER_DISTANCE,
                        self.chunks@.len() == s1.len() + loaded@.len(),
                        self.chunks@.subrange(0, s1.len() as int) == s1,
                        forall|k: int|
                            0 <= k < loaded@.len() ==> self.chunks@[s1.len() + k] == (ChunkEntry {
                                pos: loaded@[k],
                                blocks: None,
                                vertex_buffer: None,
                            }),
                        loaded@.len() <= MAX_LOADED_CHUNKS_PER_FRAME,
                        forall|k: int|
                            0 <= k < loaded@.len() ==> in_load_cube(#[trigger] loaded@[k], pc)
                                && !contains_pos(s1, loaded@[k]),
                        loaded@.len() < MAX_LOADED_CHUNKS_PER_FRAME ==> forall|
                            ax: int,
                            ay: int,
                            az: int,
                        |
                            (-(RENDER_DISTANCE as int) <= ax < dx && -(RENDER_DISTANCE as int) <= ay
                                <= RENDER_DISTANCE && -(RENDER_DISTANCE as int) <= az
                                <= RENDER_DISTANCE) || (ax == dx && -(RENDER_DISTANCE as int) <= ay
                                < dy && -(RENDER_DISTANCE as int) <= az <= RENDER_DISTANCE) || (ax
                                == dx && ay == dy && -(RENDER_DISTANCE as int) <= az < dz)
                                ==> contains_pos(self.chunks@, #[trigger] cube_pos(pc, ax, ay, az)),
                        hyp == ((forall|p: ChunkPos| in_load_cube(p, pc) ==> contains_pos(s0, p))
                            && (forall|k: int|
                            0 <= k < s0.len() ==> !is_far((#[trigger] s0[k]).pos, pc))),
                        hyp ==> s1 == s0,
                        hyp ==> loaded@.len() == 0,
                        self.created_chunks_total as int == if old(self).created_chunks_total
                            + loaded@.len() <= u64::MAX {
                            old(self).created_chunks_total + loaded@.len()
                        } else {
                            u64::MAX as int
                        },
                        self.waiting_for_delete_buffers.wf(),
                        self.waiting_for_delete_buffers.index == (old(self).waiting_for_delete_buffers.index + 1) % (MAX_FRAMES_IN_FLIGHT as int),
                        self.waiting_for_delete_buffers.buffers@.len() == MAX_FRAMES_IN_FLIGHT,
                        self.waiting_for_delete_buffers.buffers@[old(self).waiting_for_delete_buffers.index as int]@ == evicted_buffers(s0, pc),
                        forall|k: int|
                            0 <= k < MAX_FRAMES_IN_FLIGHT && k != old(self).waiting_for_delete_buffers.index ==> (
                            #[trigger] self.waiting_for_delete_buffers.buffers@[k]) == old(self).waiting_for_delete_buffers.buffers@[k],
                    decreases rd - dz + 1,
                {
                    let pos = ChunkPos::new(player_chunk.x + dx, player_chunk.y + dy, player_chunk.z + dz);
                    let ghost prev = self.chunks@;
                    let ghost prev_loaded = loaded@;
                    let present = self.contains(pos);
                    if !present && loaded.len() < MAX_LOADED_CHUNKS_PER_FRAME {
                        self.chunks.push(ChunkEntry { pos, blocks: None, vertex_buffer: None });
                        loaded.push(pos);
                        if self.created_chunks_total < u64::MAX {
                            self.created_chunks_total = self.created_chunks_total + 1;
                        }
                        proof {
                            assert forall|k1: int, k2: int|
                                0 <= k1 < k2 < self.chunks@.len() implies self.chunks@[k1].pos
                                != self.chunks@[k2].pos by {
                                if k2 == self.chunks@.len() - 1 {
                                    assert(self.chunks@[k1] == prev[k1]);
                                    if k1 < s1.len() {
                                        assert(s1[k1] == prev[k1]);
                                        assert(!contains_pos(s1, pos));
                                    }
                                } else {
                                    assert(self.chunks@[k1] == prev[k1]);
                                    assert(self.chunks@[k2] == prev[k2]);
                                }
                            }
                            assert(self.chunks@.subrange(0, s1.len() as int) =~= prev.subrange(
                                0,
                                s1.len() as int,
                            ));
                            if hyp {
                                assert(in_load_cube(pos, pc));
                                assert(contains_pos(s0, pos));
                                let k = choose|k: int| 0 <= k < s0.len() && s0[k].pos == pos;
                                assert(contains_pos(prev, pos));
                                assert(false);
                            }
                        }
                    }
                    proof {
                        // everything present before stays present
                        assert forall|q: ChunkPos| contains_pos(prev, q) implies contains_pos(
                            self.chunks@,
                            q,
                        ) by {
                            let k = choose|k: int| 0 <= k < prev.len() && prev[k].pos == q;
                            assert(self.chunks@[k] == prev[k]);
                        }
                        // this cell is present now unless the per-tick
                        // bound already cut loading off
                        assert(pos == cube_pos(pc, dx as int, dy as int, dz as int));
                        if present {
                            assert(contains_pos(self.chunks@, pos));
                        } else if loaded@.len() < MAX_LOADED_CHUNKS_PER_FRAME
                            || prev_loaded.len() < MAX_LOADED_CHUNKS_PER_FRAME {
                            assert(self.chunks@[self.chunks@.len() - 1].pos == pos);
                            assert(contains_pos(self.chunks@, pos));
                        }
                    }
                    dz = dz + 1;
                }
                dy = dy + 1;
            }
            dx = dx + 1;
        }
        proof {
            assert forall|k: int|
                0 <= k < loaded@.len() implies in_load_cube(#[trigger] loaded@[k], pc)
                && !contains_pos(s0, loaded@[k]) by {
                if contains_pos(s0, loaded@[k]) {
                    lemma_kept_contains(s0, pc, loaded@[k]);
                }
            }
            if hyp {
                assert(self.chunks@ =~= s0);
            }
            assert forall|p: ChunkPos|
                loaded@.len() < MAX_LOADED_CHUNKS_PER_FRAME && in_load_cube(p, pc)
                    implies contains_pos(self.chunks@, p) by {
                let ax = p.x - pc.x;
                let ay = p.y - pc.y;
                let az = p.z - pc.z;
                assert(p == cube_pos(pc, ax, ay, az));
            }
        }
        TickResult { loaded, evicted_regions, destroyed_buffers: destroyed }
    }
}

} // verus!
