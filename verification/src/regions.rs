//! Region-grouped command-buffer bookkeeping: chunks are grouped into
//! `REGION_SIZE`³ cubes, and each region caches one recorded draw sequence
//! per swapchain image. A region goes dirty when any of its chunks gains,
//! loses or changes a vertex buffer, and is re-recorded lazily at draw
//! time.
//!
//! The command buffers themselves are graphics-API objects owned outside;
//! here lives what to record (which resident chunks of the world fall in
//! the region) and when (the per-image dirty bits).

use vstd::prelude::*;
use vstd::arithmetic::div_mod::{lemma_fundamental_div_mod, lemma_fundamental_div_mod_converse};

use crate::pos::{region_of, ChunkPos, RegionPos};
use crate::world::{ChunkEntry, VertexBuffer, World};
use crate::REGION_SIZE;

verus! {

/// The cached state of one region: which per-image command buffers are
/// stale, and the chunk-position box the region covers,
/// `[min_pos, max_pos)`.
#[derive(Debug)]
pub struct RegionCmdBuff {
    pub pos: RegionPos,
    pub dirty_buffs: Vec<bool>,
    pub min_pos: ChunkPos,
    pub max_pos: ChunkPos,
}

/// A region position whose chunk box stays within the coordinate range.
pub open spec fn region_in_range(pos: RegionPos) -> bool {
    &&& i64::MIN <= pos.x * REGION_SIZE && (pos.x + 1) * REGION_SIZE <= i64::MAX
    &&& i64::MIN <= pos.y * REGION_SIZE && (pos.y + 1) * REGION_SIZE <= i64::MAX
    &&& i64::MIN <= pos.z * REGION_SIZE && (pos.z + 1) * REGION_SIZE <= i64::MAX
}

/// Whether a region's chunk box stays inside the coordinate range; the
/// caller checks this before building the region's cache entry.
pub fn region_in_range_check(pos: RegionPos) -> (r: bool)
    ensures
        r == region_in_range(pos),
{
    let lo = i64::MIN as i128;
    let hi = i64::MAX as i128;
    let rs = REGION_SIZE as i128;
    let x = pos.x as i128;
    let y = pos.y as i128;
    let z = pos.z as i128;
    lo <= x * rs && (x + 1) * rs <= hi && lo <= y * rs && (y + 1) * rs <= hi && lo <= z * rs && (z
        + 1) * rs <= hi
}

impl RegionCmdBuff {
    pub open spec fn wf(&self) -> bool {
        &&& self.min_pos.x == self.pos.x * REGION_SIZE
        &&& self.min_pos.y == self.pos.y * REGION_SIZE
        &&& self.min_pos.z == self.pos.z * REGION_SIZE
        &&& self.max_pos.x == (self.pos.x + 1) * REGION_SIZE
        &&& self.max_pos.y == (self.pos.y + 1) * REGION_SIZE
        &&& self.max_pos.z == (self.pos.z + 1) * REGION_SIZE
    }

    /// A fresh region entry: every image's buffer starts dirty.
    pub fn new(pos: RegionPos, buffers_count: usize) -> (r: Self)
        requires
            region_in_range(pos),
        ensures
            r.wf(),
            r.pos == pos,
            r.dirty_buffs@.len() == buffers_count,
            forall|k: int| 0 <= k < buffers_count ==> r.dirty_buffs@[k] == true,
    {
        let rs = REGION_SIZE as i64;
        let min_pos = ChunkPos::new(pos.x * rs, pos.y * rs, pos.z * rs);
        let max_pos = ChunkPos::new((pos.x + 1) * rs, (pos.y + 1) * rs, (pos.z + 1) * rs);
        let dirty_buffs: Vec<bool> = vec![true; buffers_count];
        RegionCmdBuff { pos, dirty_buffs, min_pos, max_pos }
    }

    /// Marks every image's cached commands stale.
    pub fn set_dirty(&mut self)
        ensures
            final(self).pos == old(self).pos,
            final(self).min_pos == old(self).min_pos,
            final(self).max_pos == old(self).max_pos,
            final(self).dirty_buffs@.len() == old(self).dirty_buffs@.len(),
            forall|k: int|
                0 <= k < final(self).dirty_buffs@.len() ==> final(self).dirty_buffs@[k] == true,
    {
        let n = self.dirty_buffs.len();
        let mut k: usize = 0;
        while k < n
            invariant
                n == self.dirty_buffs@.len(),
                0 <= k <= n,
                self.pos == old(self).pos,
                self.min_pos == old(self).min_pos,
                self.max_pos == old(self).max_pos,
                forall|j: int| 0 <= j < k ==> self.dirty_buffs@[j] == true,
            decreases n - k,
        {
            self.dirty_buffs[k] = true;
            k = k + 1;
        }
    }

    /// Reports whether image `index`'s commands must be re-recorded, and
    /// marks them fresh: the caller records exactly when this says so.
    pub fn fetch_dirty(&mut self, index: usize) -> (r: bool)
        requires
            index < old(self).dirty_buffs@.len(),
        ensures
            final(self).pos == old(self).pos,
            final(self).min_pos == old(self).min_pos,
            final(self).max_pos == old(self).max_pos,
            r == old(self).dirty_buffs@[index as int],
            final(self).dirty_buffs@ == old(self).dirty_buffs@.update(index as int, false),
    {
        let was = self.dirty_buffs[index];
        self.dirty_buffs[index] = false;
        was
    }
}

/// A chunk position lies in a region's box exactly when that region is the
/// chunk's own: the box test the recorder uses agrees with floor division.
pub proof fn lemma_between_iff_region(p: ChunkPos, rp: RegionPos)
    requires
        region_in_range(rp),
    ensures
        (rp.x * REGION_SIZE <= p.x < (rp.x + 1) * REGION_SIZE && rp.y * REGION_SIZE <= p.y < (rp.y
            + 1) * REGION_SIZE && rp.z * REGION_SIZE <= p.z < (rp.z + 1) * REGION_SIZE) <==> (
        region_of(p) == rp),
{
    lemma_floor_div_range(p.x as int, rp.x as int);
    lemma_floor_div_range(p.y as int, rp.y as int);
    lemma_floor_div_range(p.z as int, rp.z as int);
}

/// Floor division by `REGION_SIZE` sends exactly the values of
/// `[q * REGION_SIZE, (q + 1) * REGION_SIZE)` to `q`.
proof fn lemma_floor_div_range(v: int, q: int)
    ensures
        (q * REGION_SIZE <= v < (q + 1) * REGION_SIZE) <==> v / (REGION_SIZE as int) == q,
{
    let d = REGION_SIZE as int;
    if q * d <= v < (q + 1) * d {
        lemma_fundamental_div_mod_converse(v, d, q, v - q * d);
    }
    if v / d == q {
        lemma_fundamental_div_mod(v, d);
    }
}

/// The draw list of one region: every chunk of the map inside the box that
/// has a vertex buffer installed, in map order.
pub open spec fn region_draws(s: Seq<ChunkEntry>, min: ChunkPos, max: ChunkPos) -> Seq<
    (ChunkPos, VertexBuffer),
>
    decreases s.len(),
{
    if s.len() == 0 {
        Seq::empty()
    } else {
        region_draws(s.drop_last(), min, max) + {
            let e = s.last();
            if min.x <= e.pos.x < max.x && min.y <= e.pos.y < max.y && min.z <= e.pos.z < max.z {
                match e.vertex_buffer {
                    Some(vb) => seq![(e.pos, vb)],
                    None => Seq::empty(),
                }
            } else {
                Seq::empty()
            }
        }
    }
}

/// Collects what a region's secondary command buffer must draw: for each
/// resident chunk of the region with an uploaded vertex buffer, its
/// position (the push constant) and its buffer. Chunks still waiting for
/// generation or upload are skipped, exactly as the recorder skips a
/// contended buffer lock.
pub fn record_region_draws(world: &World, region: &RegionCmdBuff) -> (r: Vec<
    (ChunkPos, VertexBuffer),
>)
    ensures
        r@ == region_draws(world.chunks@, region.min_pos, region.max_pos),
{
    let mut out: Vec<(ChunkPos, VertexBuffer)> = Vec::new();
    let mut i: usize = 0;
    while i < world.chunks.len()
        invariant
            0 <= i <= world.chunks@.len(),
            out@ =~= region_draws(
                world.chunks@.subrange(0, i as int),
                region.min_pos,
                region.max_pos,
            ),
        decreases world.chunks@.len() - i,
    {
        proof {
            assert(world.chunks@.subrange(0, i + 1).drop_last() =~= world.chunks@.subrange(
                0,
                i as int,
            ));
            assert(world.chunks@.subrange(0, i + 1).last() == world.chunks@[i as int]);
        }
        let e = &world.chunks[i];
        if e.pos.between(&region.min_pos, &region.max_pos) {
            match e.vertex_buffer {
                Some(vb) => out.push((e.pos, vb)),
                None => (),
            }
        }
        proof {
            assert(out@ =~= region_draws(
                world.chunks@.subrange(0, i + 1),
                region.min_pos,
                region.max_pos,
            ));
        }
        i = i + 1;
    }
    proof {
        assert(world.chunks@.subrange(0, world.chunks@.len() as int) =~= world.chunks@);
    }
    out
}

/// The per-region cache, keyed by region position.
#[derive(Debug)]
pub struct RegionsManager {
    pub regions: Vec<RegionCmdBuff>,
    pub buffers_count: usize,
}

/// Whether the cache holds an entry for `pos`.
pub open spec fn contains_region(s: Seq<RegionCmdBuff>, pos: RegionPos) -> bool {
    exists|k: int| 0 <= k < s.len() && s[k].pos == pos
}

impl RegionsManager {
    pub open spec fn wf(&self) -> bool {
        &&& forall|k: int|
            0 <= k < self.regions@.len() ==> (#[trigger] self.regions@[k]).wf()
                && self.regions@[k].dirty_buffs@.len() == self.buffers_count
        &&& forall|k1: int, k2: int|
            0 <= k1 < k2 < self.regions@.len() ==> self.regions@[k1].pos != self.regions@[k2].pos
    }

    pub fn new(buffers_count: usize) -> (r: Self)
        ensures
            r.wf(),
            r.regions@.len() == 0,
            r.buffers_count == buffers_count,
    {
        RegionsManager { regions: Vec::new(), buffers_count }
    }

    /// The index of the entry for `pos`, if the cache holds one.
    fn index_of(&self, pos: RegionPos) -> (r: Option<usize>)
        ensures
            r matches Some(k) ==> k < self.regions@.len() && self.regions@[k as int].pos == pos,
            r is None ==> !contains_region(self.regions@, pos),
    {
        let mut k: usize = 0;
        while k < self.regions.len()
            invariant
                0 <= k <= self.regions@.len(),
                forall|j: int| 0 <= j < k ==> (#[trigger] self.regions@[j]).pos != pos,
            decreases self.regions@.len() - k,
        {
            if self.regions[k].pos == pos {
                return Some(k);
            }
            k = k + 1;
        }
        None
    }

    /// Marks a region stale, creating its cache entry (born all-dirty) the
    /// first time one of its chunks appears, changes or goes away.
    pub fn set_dirty(&mut self, pos: RegionPos)
        requires
            old(self).wf(),
            region_in_range(pos),
        ensures
            final(self).wf(),
            final(self).buffers_count == old(self).buffers_count,
            contains_region(final(self).regions@, pos),
            exists|k: int|
                0 <= k < final(self).regions@.len() && (#[trigger] final(self).regions@[k]).pos
                    == pos && forall|j: int|
                    0 <= j < final(self).regions@[k].dirty_buffs@.len() ==> final(self).regions@[k].dirty_buffs@[j] == true,
            // a region already cached is marked stale in place; every other
            // region is untouched
            contains_region(old(self).regions@, pos) ==> {
                &&& final(self).regions@.len() == old(self).regions@.len()
                &&& exists|k: int|
                    {
                        &&& 0 <= k < old(self).regions@.len()
                        &&& (#[trigger] old(self).regions@[k]).pos == pos
                        &&& final(self).regions@[k].pos == pos
                        &&& final(self).regions@[k].min_pos == old(self).regions@[k].min_pos
                        &&& final(self).regions@[k].max_pos == old(self).regions@[k].max_pos
                        &&& final(self).regions@[k].dirty_buffs@.len() == old(
                            self,
                        ).regions@[k].dirty_buffs@.len()
                        &&& (forall|j: int|
                            0 <= j < old(self).regions@.len() && j != k ==> final(self).regions@[j]
                                == old(self).regions@[j])
                    }
            },
            // an unknown region gets a fresh all-dirty entry at the end
            !contains_region(old(self).regions@, pos) ==> {
                &&& final(self).regions@.len() == old(self).regions@.len() + 1
                &&& (forall|j: int|
                    0 <= j < old(self).regions@.len() ==> final(self).regions@[j] == old(
                        self,
                    ).regions@[j])
                &&& final(self).regions@[old(self).regions@.len() as int].pos == pos
                &&& final(self).regions@[old(self).regions@.len() as int].dirty_buffs@.len() == old(
                    self,
                ).buffers_count
            },
    {
        let ghost prev = self.regions@;
        match self.index_of(pos) {
            Some(k) => {
                let region = &mut self.regions[k];
                region.set_dirty();
                proof {
                    assert forall|k1: int, k2: int|
                        0 <= k1 < k2 < self.regions@.len() implies self.regions@[k1].pos
                        != self.regions@[k2].pos by {
                        assert(prev[k1].pos != prev[k2].pos);
                        assert(self.regions@[k1].pos == prev[k1].pos);
                        assert(self.regions@[k2].pos == prev[k2].pos);
                    }
                    assert(self.regions@[k as int].pos == pos);
                    assert(contains_region(prev, pos));
                    assert forall|j: int|
                        0 <= j < prev.len() && j != k implies self.regions@[j] == prev[j] by {}
                }
            },
            None => {
                let count = self.buffers_count;
                self.regions.push(RegionCmdBuff::new(pos, count));
                proof {
                    assert forall|k1: int, k2: int|
                        0 <= k1 < k2 < self.regions@.len() implies self.regions@[k1].pos
                        != self.regions@[k2].pos by {
                        if k2 == self.regions@.len() - 1 {
                            assert(self.regions@[k1] == prev[k1]);
                        } else {
                            assert(self.regions@[k1] == prev[k1]);
                            assert(self.regions@[k2] == prev[k2]);
                        }
                    }
                    assert(self.regions@[self.regions@.len() - 1].pos == pos);
                }
            },
        }
    }

    /// How many regions have cache entries.
    pub fn len(&self) -> (r: usize)
        ensures
            r == self.regions@.len(),
    {
        self.regions.len()
    }

    /// After a swapchain or pipeline rebuild every cached buffer is stale
    /// and the per-region buffer count follows the new image count.
    pub fn pipeline_recreated(&mut self, new_count: usize)
        requires
            old(self).wf(),
        ensures
            final(self).wf(),
            final(self).buffers_count == new_count,
            final(self).regions@.len() == old(self).regions@.len(),
            forall|k: int|
                0 <= k < final(self).regions@.len() ==> (#[trigger] final(self).regions@[k]).pos
                    == old(self).regions@[k].pos && final(self).regions@[k].dirty_buffs@.len()
                    == new_count && forall|j: int|
                    0 <= j < new_count ==> final(self).regions@[k].dirty_buffs@[j] == true,
    {
        self.buffers_count = new_count;
        let ghost prev = self.regions@;
        let n = self.regions.len();
        let mut k: usize = 0;
        while k < n
            invariant
                old(self).wf(),
                n == self.regions@.len(),
                n == prev.len(),
                0 <= k <= n,
                self.buffers_count == new_count,
                forall|j: int|
                    k <= j < n ==> (#[trigger] self.regions@[j]) == prev[j],
                forall|j: int| 0 <= j < n ==> (#[trigger] prev[j]).wf(),
                forall|j1: int, j2: int| 0 <= j1 < j2 < n ==> prev[j1].pos != prev[j2].pos,
                forall|j: int|
                    0 <= j < k ==> (#[trigger] self.regions@[j]).wf() && self.regions@[j].pos
                        == prev[j].pos && self.regions@[j].dirty_buffs@.len() == new_count
                        && forall|m: int|
                        0 <= m < new_count ==> self.regions@[j].dirty_buffs@[m] == true,
            decreases n - k,
        {
            let region = &mut self.regions[k];
            let mut fresh: Vec<bool> = vec![true; new_count];
            core::mem::swap(&mut region.dirty_buffs, &mut fresh);
            k = k + 1;
        }
        proof {
            assert forall|k1: int, k2: int|
                0 <= k1 < k2 < self.regions@.len() implies self.regions@[k1].pos
                != self.regions@[k2].pos by {
                assert(prev[k1].pos != prev[k2].pos);
            }
        }
    }
}

} // verus!
