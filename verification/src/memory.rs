//! GPU memory suballocation: many small allocations carved out of a few
//! large device-memory regions ("chunks"), one pool per memory type.
//!
//! A chunk's block list is an ordered partition of its byte range into free
//! and used blocks. Allocation first-fits a free block, splitting it into
//! an optional head pad, the allocated block and an optional tail; freeing
//! marks the block free again and never coalesces, so first-fit can reuse
//! it. The device memory itself is handed in by the caller: when no chunk
//! fits, `allocate` reports how much device memory to bring.

use vstd::prelude::*;
use vstd::arithmetic::div_mod::{lemma_fundamental_div_mod, lemma_mod_multiples_basic};

verus! {

/// Smallest device-memory region a pool asks for (32 MiB); a larger request
/// gets a region of its own size.
pub const MIN_CHUNK_SIZE: usize = 33554432;

/// One span of a chunk's byte range.
#[derive(Debug, Clone, Copy, PartialEq, Eq, Structural)]
pub struct MemBlock {
    pub offset: usize,
    pub size: usize,
    pub is_free: bool,
}

/// What a used block contributes to a chunk's `used` counter.
pub open spec fn block_contrib(b: MemBlock) -> nat {
    if b.is_free {
        0
    } else {
        b.size as nat
    }
}

/// Total bytes held by used blocks.
pub open spec fn used_total(s: Seq<MemBlock>) -> nat
    decreases s.len(),
{
    if s.len() == 0 {
        0
    } else {
        used_total(s.drop_last()) + block_contrib(s.last())
    }
}

/// The block list is an ordered, gapless partition of `[0, total)` into
/// nonempty spans.
pub open spec fn blocks_partition(s: Seq<MemBlock>, total: int) -> bool {
    &&& s.len() > 0
    &&& s[0].offset == 0
    &&& forall|i: int, j: int|
        #![trigger s[i], s[j]]
        0 <= i < s.len() && j == i + 1 && j < s.len() ==> s[j].offset == s[i].offset + s[i].size
    &&& s[s.len() - 1].offset + s[s.len() - 1].size == total
    &&& forall|i: int| 0 <= i < s.len() ==> (#[trigger] s[i]).size > 0
}

proof fn lemma_used_update(s: Seq<MemBlock>, i: int, b: MemBlock)
    requires
        0 <= i < s.len(),
    ensures
        used_total(s.update(i, b)) + block_contrib(s[i]) == used_total(s) + block_contrib(b),
    decreases s.len(),
{
    if i == s.len() - 1 {
        assert(s.update(i, b).drop_last() =~= s.drop_last());
        assert(s.update(i, b).last() == b);
    } else {
        assert(s.update(i, b).drop_last() =~= s.drop_last().update(i, b));
        assert(s.update(i, b).last() == s.last());
        lemma_used_update(s.drop_last(), i, b);
    }
}

proof fn lemma_used_insert(s: Seq<MemBlock>, i: int, b: MemBlock)
    requires
        0 <= i <= s.len(),
    ensures
        used_total(s.insert(i, b)) == used_total(s) + block_contrib(b),
    decreases s.len(),
{
    if i == s.len() {
        assert(s.insert(i, b).drop_last() =~= s);
        assert(s.insert(i, b).last() == b);
    } else {
        assert(s.insert(i, b).drop_last() =~= s.drop_last().insert(i, b));
        assert(s.insert(i, b).last() == s.last());
        lemma_used_insert(s.drop_last(), i, b);
    }
}

/// One used block never holds more than the whole used total.
proof fn lemma_used_lower(s: Seq<MemBlock>, i: int)
    requires
        0 <= i < s.len(),
    ensures
        block_contrib(s[i]) <= used_total(s),
    decreases s.len(),
{
    if i < s.len() - 1 {
        assert(s.drop_last()[i] == s[i]);
        lemma_used_lower(s.drop_last(), i);
    }
}

/// Every block of a partition lies inside the chunk.
proof fn lemma_partition_bounds(s: Seq<MemBlock>, total: int, i: int)
    requires
        blocks_partition(s, total),
        0 <= i < s.len(),
    ensures
        s[i].offset + s[i].size <= total,
    decreases s.len() - i,
{
    if i < s.len() - 1 {
        assert(s[i + 1].offset == s[i].offset + s[i].size);
        lemma_partition_bounds(s, total, i + 1);
    }
}

/// The used bytes of a partitioned chunk never exceed its size.
proof fn lemma_used_le_total(s: Seq<MemBlock>, total: int)
    requires
        blocks_partition(s, total),
    ensures
        used_total(s) <= total,
    decreases s.len(),
{
    if s.len() == 1 {
        assert(used_total(s.drop_last()) == 0);
    } else {
        let s2 = s.drop_last();
        assert(blocks_partition(s2, s.last().offset as int)) by {
            assert(s[s.len() - 1].offset == s[s.len() - 2].offset + s[s.len() - 2].size);
        }
        lemma_used_le_total(s2, s.last().offset as int);
    }
}

/// Bytes of padding that bring `offset` up to the next multiple of
/// `alignment`.
pub open spec fn align_pad(offset: int, alignment: int) -> int {
    if offset % alignment == 0 {
        0
    } else {
        alignment - offset % alignment
    }
}

/// Whether a free block can serve an allocation of `size` bytes aligned to
/// `alignment`.
pub open spec fn block_fits(b: MemBlock, size: int, alignment: int) -> bool {
    b.is_free && align_pad(b.offset as int, alignment) + size <= b.size
}

/// The middle part of a split: an optional head pad, the allocated block
/// and an optional free tail, replacing one free block that started at
/// `b.offset`.
pub open spec fn split_mid(b: MemBlock, pad: int, size: int, tail: int) -> Seq<MemBlock> {
    (if pad > 0 {
        seq![MemBlock { offset: b.offset, size: pad as usize, is_free: true }]
    } else {
        Seq::empty()
    }) + seq![
        MemBlock { offset: (b.offset + pad) as usize, size: size as usize, is_free: false },
    ] + (if tail > 0 {
        seq![
            MemBlock {
                offset: (b.offset + pad + size) as usize,
                size: tail as usize,
                is_free: true,
            },
        ]
    } else {
        Seq::empty()
    })
}

/// The block list after splitting block `k` into head pad, allocation and
/// tail; every other block is untouched.
pub open spec fn split_blocks(s: Seq<MemBlock>, k: int, pad: int, size: int, tail: int) -> Seq<
    MemBlock,
> {
    s.subrange(0, k) + split_mid(s[k], pad, size, tail) + s.subrange(k + 1, s.len() as int)
}

/// One allocation handed out by a pool: a sub-range of a device-memory
/// chunk. A mapped allocation carries host-visible bytes to write through.
#[derive(Debug)]
pub struct Allocation {
    pub memory_type_index: u32,
    pub memory: u64,
    pub chunk_id: u32,
    pub size: usize,
    pub offset: usize,
    pub data: Option<Vec<u8>>,
}

impl Allocation {
    /// A mapped allocation has host bytes covering exactly its extent.
    pub open spec fn wf(&self) -> bool {
        self.data matches Some(d) ==> d@.len() == self.size
    }

    pub open spec fn is_mapped(&self) -> bool {
        self.data is Some
    }

    /// The device-memory region this allocation lives in.
    pub fn memory(&self) -> (r: u64)
        ensures
            r == self.memory,
    {
        self.memory
    }

    pub fn size(&self) -> (r: usize)
        ensures
            r == self.size,
    {
        self.size
    }

    pub fn offset(&self) -> (r: usize)
        ensures
            r == self.offset,
    {
        self.offset
    }

    /// Whether the allocation is host-visible.
    pub fn has_data(&self) -> (r: bool)
        ensures
            r == self.is_mapped(),
    {
        self.data.is_some()
    }
}

/// One device-memory region owned by a pool, carved into blocks.
#[derive(Debug)]
pub struct MemChunk {
    pub id: u32,
    pub size: usize,
    pub used: usize,
    pub memory: u64,
    pub mapped: bool,
    pub blocks: Vec<MemBlock>,
}

/// Whether the chunk's block list holds the used block backing an
/// allocation of `size` bytes at `offset`.
pub open spec fn chunk_has_backing(c: MemChunk, offset: int, size: int) -> bool {
    exists|k: int|
        0 <= k < c.blocks@.len() && (#[trigger] c.blocks@[k]) == (MemBlock {
            offset: offset as usize,
            size: size as usize,
            is_free: false,
        })
}

impl MemChunk {
    pub open spec fn wf(&self) -> bool {
        &&& blocks_partition(self.blocks@, self.size as int)
        &&& self.used == used_total(self.blocks@)
    }

    /// A fresh chunk: one free block spanning the whole region.
    pub fn new(id: u32, size: usize, memory: u64, mapped: bool) -> (r: Self)
        requires
            size > 0,
        ensures
            r.wf(),
            r.id == id && r.size == size && r.memory == memory && r.mapped == mapped,
            r.used == 0,
            r.blocks@.len() == 1,
            r.blocks@[0].is_free && r.blocks@[0].size == size && r.blocks@[0].offset == 0,
    {
        let blocks: Vec<MemBlock> = vec![MemBlock { offset: 0, size, is_free: true }];
        proof {
            assert(used_total(blocks@.drop_last()) == 0);
        }
        MemChunk { id, size, used: 0, memory, mapped, blocks }
    }

    /// First-fits a free block, splitting it into head pad, allocation and
    /// tail. Fails exactly when no free block fits.
    #[verifier::rlimit(100)]
    pub fn try_alloc(&mut self, size: usize, alignment: usize, memory_type_index: u32) -> (r:
        Option<Allocation>)
        requires
            old(self).wf(),
            size > 0,
            alignment > 0,
        ensures
            final(self).wf(),
            final(self).id == old(self).id,
            final(self).size == old(self).size,
            final(self).memory == old(self).memory,
            final(self).mapped == old(self).mapped,
            r is None ==> *final(self) == *old(self),
            r is None ==> forall|k: int|
                0 <= k < old(self).blocks@.len() ==> !block_fits(
                    #[trigger] old(self).blocks@[k],
                    size as int,
                    alignment as int,
                ),
            r matches Some(a) ==> {
                &&& a.wf()
                &&& a.offset % alignment == 0
                &&& a.size == size
                &&& a.offset + a.size <= old(self).size
                &&& a.chunk_id == old(self).id
                &&& a.memory == old(self).memory
                &&& a.memory_type_index == memory_type_index
                &&& a.is_mapped() == old(self).mapped
                &&& final(self).used == old(self).used + size
                &&& chunk_has_backing(*final(self), a.offset as int, a.size as int)
                &&& exists|k: int|
                    {
                        let pad = align_pad(
                            (#[trigger] old(self).blocks@[k]).offset as int,
                            alignment as int,
                        );
                        &&& 0 <= k < old(self).blocks@.len()
                        &&& block_fits(old(self).blocks@[k], size as int, alignment as int)
                        &&& (forall|j: int|
                            0 <= j < k ==> !block_fits(
                                #[trigger] old(self).blocks@[j],
                                size as int,
                                alignment as int,
                            ))
                        &&& a.offset == old(self).blocks@[k].offset + pad
                        &&& final(self).blocks@ == split_blocks(
                            old(self).blocks@,
                            k,
                            pad,
                            size as int,
                            old(self).blocks@[k].size - pad - size,
                        )
                    }
            },
    {
        let mut i: usize = 0;
        while i < self.blocks.len()
            invariant
                self == old(self),
                self.wf(),
                size > 0,
                alignment > 0,
                0 <= i <= self.blocks@.len(),
                forall|k: int|
                    0 <= k < i ==> !block_fits(
                        #[trigger] self.blocks@[k],
                        size as int,
                        alignment as int,
                    ),
            decreases self.blocks@.len() - i,
        {
            let b = self.blocks[i];
            if b.is_free {
                let rem = b.offset % alignment;
                let pad = if rem == 0 {
                    0
                } else {
                    alignment - rem
                };
                proof {
                    lemma_partition_bounds(self.blocks@, self.size as int, i as int);
                }
                if pad <= b.size && b.size - pad >= size {
                    let alloc_off = b.offset + pad;
                    let tail = b.size - pad - size;
                    proof {
                        lemma_aligned_offset(b.offset as int, alignment as int);
                        assert(pad == align_pad(b.offset as int, alignment as int));
                        assert(block_fits(b, size as int, alignment as int));
                    }
                    self.split_block(i, pad, size, tail);
                    proof {
                        // the allocated block stands in the new list, right
                        // after the head pad if there is one
                        let pa: int = if pad > 0 {
                            1
                        } else {
                            0
                        };
                        assert(self.blocks@[i + pa] == (MemBlock {
                            offset: alloc_off,
                            size,
                            is_free: false,
                        }));
                    }
                    let data = if self.mapped {
                        Some(vec![0u8; size])
                    } else {
                        None
                    };
                    return Some(
                        Allocation {
                            memory_type_index,
                            memory: self.memory,
                            chunk_id: self.id,
                            size,
                            offset: alloc_off,
                            data,
                        },
                    );
                }
            }
            i = i + 1;
        }
        None
    }

    /// Splits free block `i` into an optional head pad, the allocated
    /// block and an optional free tail, bumping the used counter.
    #[verifier::rlimit(100)]
    fn split_block(&mut self, i: usize, pad: usize, size: usize, tail: usize)
        requires
            old(self).wf(),
            i < old(self).blocks@.len(),
            old(self).blocks@[i as int].is_free,
            old(self).blocks@[i as int].size == pad + size + tail,
            size > 0,
        ensures
            final(self).wf(),
            final(self).id == old(self).id,
            final(self).size == old(self).size,
            final(self).memory == old(self).memory,
            final(self).mapped == old(self).mapped,
            final(self).used == old(self).used + size,
            final(self).blocks@ == split_blocks(
                old(self).blocks@,
                i as int,
                pad as int,
                size as int,
                tail as int,
            ),
    {
        let ghost s = self.blocks@;
        let ghost total = self.size as int;
        let n = self.blocks.len();
        let b = self.blocks[i];
        proof {
            lemma_partition_bounds(s, total, i as int);
            assert(i < n && n <= usize::MAX);
        }
        let alloc_off = b.offset + pad;
        if pad > 0 {
            let pad_block = MemBlock { offset: b.offset, size: pad, is_free: true };
            let alloc_block = MemBlock { offset: alloc_off, size, is_free: false };
            self.blocks[i] = pad_block;
            self.blocks.insert(i + 1, alloc_block);
            if tail > 0 {
                let tail_block = MemBlock { offset: alloc_off + size, size: tail, is_free: true };
                let n2 = self.blocks.len();
                self.blocks.insert(i + 2, tail_block);
                proof {
                    lemma_split_run(s, i as int, seq![pad_block, alloc_block, tail_block], self.blocks@, total);
                    assert(split_mid(s[i as int], pad as int, size as int, tail as int) =~= seq![
                        pad_block,
                        alloc_block,
                        tail_block,
                    ]);
                    assert(self.blocks@ =~= split_blocks(
                        s,
                        i as int,
                        pad as int,
                        size as int,
                        tail as int,
                    ));
                }
            } else {
                proof {
                    lemma_split_run(s, i as int, seq![pad_block, alloc_block], self.blocks@, total);
                    assert(split_mid(s[i as int], pad as int, size as int, tail as int) =~= seq![
                        pad_block,
                        alloc_block,
                    ]);
                    assert(self.blocks@ =~= split_blocks(
                        s,
                        i as int,
                        pad as int,
                        size as int,
                        tail as int,
                    ));
                }
            }
        } else {
            let alloc_block = MemBlock { offset: b.offset, size, is_free: false };
            self.blocks[i] = alloc_block;
            if tail > 0 {
                let tail_block = MemBlock { offset: alloc_off + size, size: tail, is_free: true };
                self.blocks.insert(i + 1, tail_block);
                proof {
                    lemma_split_run(s, i as int, seq![alloc_block, tail_block], self.blocks@, total);
                    assert(split_mid(s[i as int], pad as int, size as int, tail as int) =~= seq![
                        alloc_block,
                        tail_block,
                    ]);
                    assert(self.blocks@ =~= split_blocks(
                        s,
                        i as int,
                        pad as int,
                        size as int,
                        tail as int,
                    ));
                }
            } else {
                proof {
                    lemma_split_run(s, i as int, seq![alloc_block], self.blocks@, total);
                    assert(split_mid(s[i as int], pad as int, size as int, tail as int)
                        =~= seq![alloc_block]);
                    assert(self.blocks@ =~= split_blocks(
                        s,
                        i as int,
                        pad as int,
                        size as int,
                        tail as int,
                    ));
                }
            }
        }
        proof {
            lemma_used_le_total(self.blocks@, total);
        }
        self.used = self.used + size;
    }

    /// Marks the block of a previous allocation free again; the split
    /// stays, so the bytes are reusable by first-fit but never coalesced.
    pub fn free(&mut self, offset: usize, size: usize)
        requires
            old(self).wf(),
            exists|k: int|
                0 <= k < old(self).blocks@.len() && (#[trigger] old(self).blocks@[k]).offset
                    == offset && !old(self).blocks@[k].is_free && old(self).blocks@[k].size == size,
        ensures
            final(self).wf(),
            final(self).id == old(self).id,
            final(self).size == old(self).size,
            final(self).memory == old(self).memory,
            final(self).mapped == old(self).mapped,
            final(self).used == old(self).used - size,
            final(self).blocks@.len() == old(self).blocks@.len(),
            exists|k: int|
                {
                    &&& 0 <= k < old(self).blocks@.len()
                    &&& #[trigger] old(self).blocks@[k] == (MemBlock { offset, size, is_free: false })
                    &&& final(self).blocks@ == old(self).blocks@.update(
                        k,
                        (MemBlock { offset, size, is_free: true }),
                    )
                },
    {
        let mut i: usize = 0;
        while i < self.blocks.len()
            invariant
                self == old(self),
                self.wf(),
                0 <= i <= self.blocks@.len(),
                exists|k: int|
                    i <= k < self.blocks@.len() && (#[trigger] self.blocks@[k]).offset == offset
                        && !self.blocks@[k].is_free && self.blocks@[k].size == size,
            decreases self.blocks@.len() - i,
        {
            let b = self.blocks[i];
            if !b.is_free && b.offset == offset {
                proof {
                    let k = choose|k: int|
                        i <= k < self.blocks@.len() && (#[trigger] self.blocks@[k]).offset == offset
                            && !self.blocks@[k].is_free && self.blocks@[k].size == size;
                    if k != i {
                        lemma_partition_monotone(self.blocks@, self.size as int, i as int, k);
                    }
                    assert(b.size == size);
                    assert(self.blocks@[i as int] == (MemBlock { offset, size, is_free: false }));
                }
                let freed = MemBlock { offset: b.offset, size: b.size, is_free: true };
                let ghost s = self.blocks@;
                proof {
                    lemma_used_lower(s, i as int);
                    lemma_used_update(s, i as int, freed);
                }
                self.blocks[i] = freed;
                proof {
                    assert forall|j: int| 1 <= j < self.blocks@.len() implies (
                    #[trigger] self.blocks@[j]).offset == self.blocks@[j - 1].offset
                        + self.blocks@[j - 1].size by {
                        assert(s[j].offset == s[j - 1].offset + s[j - 1].size);
                    }
                    assert(self.blocks@ == s.update(i as int, (MemBlock { offset, size, is_free: true })));
                }
                self.used = self.used - b.size;
                return ;
            }
            i = i + 1;
        }
        proof {
            assert(false);
        }
    }
}

/// Padding a nonnegative offset by `align_pad` lands on a multiple of the
/// alignment.
proof fn lemma_aligned_offset(offset: int, alignment: int)
    requires
        offset >= 0,
        alignment > 0,
    ensures
        (offset + align_pad(offset, alignment)) % alignment == 0,
{
    lemma_fundamental_div_mod(offset, alignment);
    if offset % alignment != 0 {
        let q = offset / alignment;
        let r = offset % alignment;
        assert(offset + (alignment - r) == alignment * (q + 1)) by (nonlinear_arith)
            requires
                offset == alignment * q + r,
        ;
        lemma_mod_multiples_basic(q + 1, alignment);
    }
}

/// The mutation the split performs, seen as sequence operations, yields a
/// partition again and raises the used total by the one non-free span.
#[verifier::rlimit(100)]
proof fn lemma_split_run(
    s: Seq<MemBlock>,
    i: int,
    mid: Seq<MemBlock>,
    r: Seq<MemBlock>,
    total: int,
)
    requires
        blocks_partition(s, total),
        0 <= i < s.len(),
        s[i].is_free,
        1 <= mid.len() <= 3,
        mid[0].offset == s[i].offset,
        forall|m: int|
            1 <= m < mid.len() ==> (#[trigger] mid[m]).offset == mid[m - 1].offset + mid[m
                - 1].size,
        mid[mid.len() - 1].offset + mid[mid.len() - 1].size == s[i].offset + s[i].size,
        forall|m: int| 0 <= m < mid.len() ==> (#[trigger] mid[m]).size > 0,
        r == if mid.len() == 1 {
            s.update(i, mid[0])
        } else if mid.len() == 2 {
            s.update(i, mid[0]).insert(i + 1, mid[1])
        } else {
            s.update(i, mid[0]).insert(i + 1, mid[1]).insert(i + 2, mid[2])
        },
    ensures
        blocks_partition(r, total),
        used_total(r) == used_total(s) + if mid.len() == 1 {
            block_contrib(mid[0])
        } else if mid.len() == 2 {
            block_contrib(mid[0]) + block_contrib(mid[1])
        } else {
            block_contrib(mid[0]) + block_contrib(mid[1]) + block_contrib(mid[2])
        },
        r =~= s.subrange(0, i) + mid + s.subrange(i + 1, s.len() as int),
{
    assert(r.len() == s.len() - 1 + mid.len());
    assert forall|k: int| 0 <= k < i implies r[k] == s[k] by {}
    assert forall|m: int| 0 <= m < mid.len() implies r[i + m] == mid[m] by {}
    assert forall|k: int| i + mid.len() <= k < r.len() implies r[k] == s[k - mid.len() + 1] by {}
    lemma_replace_partition(s, r, i, mid, total);
    lemma_used_update(s, i, mid[0]);
    if mid.len() == 2 {
        lemma_used_insert(s.update(i, mid[0]), i + 1, mid[1]);
    } else if mid.len() == 3 {
        lemma_used_insert(s.update(i, mid[0]), i + 1, mid[1]);
        lemma_used_insert(s.update(i, mid[0]).insert(i + 1, mid[1]), i + 2, mid[2]);
    }
}

/// Offsets grow strictly along the block chain.
proof fn lemma_partition_monotone(s: Seq<MemBlock>, total: int, i: int, k: int)
    requires
        blocks_partition(s, total),
        0 <= i < k < s.len(),
    ensures
        s[i].offset < s[k].offset,
    decreases k - i,
{
    assert(s[i + 1].offset == s[i].offset + s[i].size);
    if i + 1 < k {
        lemma_partition_monotone(s, total, i + 1, k);
    }
}

/// Replacing one block of a partition by a run of blocks that partitions
/// the same span yields a partition of the whole range again.
proof fn lemma_replace_partition(
    s: Seq<MemBlock>,
    r: Seq<MemBlock>,
    i: int,
    mid: Seq<MemBlock>,
    total: int,
)
    requires
        blocks_partition(s, total),
        0 <= i < s.len(),
        mid.len() >= 1,
        mid[0].offset == s[i].offset,
        forall|m: int| 1 <= m < mid.len() ==> (#[trigger] mid[m]).offset == mid[m - 1].offset + mid[m - 1].size,
        mid[mid.len() - 1].offset + mid[mid.len() - 1].size == s[i].offset + s[i].size,
        forall|m: int| 0 <= m < mid.len() ==> (#[trigger] mid[m]).size > 0,
        r.len() == s.len() - 1 + mid.len(),
        forall|k: int| 0 <= k < i ==> r[k] == s[k],
        forall|m: int| 0 <= m < mid.len() ==> r[i + m] == mid[m],
        forall|k: int| i + mid.len() <= k < r.len() ==> r[k] == s[k - mid.len() + 1],
    ensures
        blocks_partition(r, total),
{
    let ml = mid.len() as int;
    assert forall|j: int| 1 <= j < r.len() implies (#[trigger] r[j]).offset == r[j - 1].offset + r[j
        - 1].size by {
        if j < i {
            assert(r[j] == s[j] && r[j - 1] == s[j - 1]);
            assert(s[j].offset == s[j - 1].offset + s[j - 1].size);
        } else if j == i {
            assert(r[j] == mid[0]);
            if i > 0 {
                assert(r[j - 1] == s[i - 1]);
                assert(s[i].offset == s[i - 1].offset + s[i - 1].size);
            }
        } else if j < i + ml {
            assert(r[j] == mid[j - i] && r[j - 1] == mid[j - i - 1]);
            assert(mid[j - i].offset == mid[j - i - 1].offset + mid[j - i - 1].size);
        } else if j == i + ml {
            assert(r[j] == s[i + 1]);
            assert(r[j - 1] == mid[ml - 1]);
            assert(s[i + 1].offset == s[i].offset + s[i].size);
        } else {
            assert(r[j] == s[j - ml + 1] && r[j - 1] == s[j - ml]);
            assert(s[j - ml + 1].offset == s[j - ml + 1 - 1].offset + s[j - ml + 1 - 1].size);
        }
    }
    assert forall|j: int| 0 <= j < r.len() implies (#[trigger] r[j]).size > 0 by {
        if j < i {
            assert(r[j] == s[j]);
            assert(s[j].size > 0);
        } else if j < i + ml {
            assert(r[j] == mid[j - i]);
        } else {
            assert(r[j] == s[j - ml + 1]);
            assert(s[j - ml + 1].size > 0);
        }
    }
    assert(r[0].offset == 0) by {
        if i > 0 {
            assert(r[0] == s[0]);
        } else {
            assert(r[0] == mid[0]);
        }
    }
    assert(r[r.len() - 1].offset + r[r.len() - 1].size == total) by {
        if i == s.len() - 1 {
            assert(r[r.len() - 1] == mid[ml - 1]);
        } else {
            assert(r[r.len() - 1] == s[s.len() - 1]);
        }
    }
}



/// A request `Allocator::allocate` cannot serve by itself: either no memory
/// type matches, or the matching pool needs a fresh device-memory region,
/// which only the caller can produce. `chunk_size` is the preferred region
/// size, `fallback_size` the smallest one that still serves the request.
#[derive(Debug, Clone, Copy, PartialEq, Eq, Structural)]
pub enum AllocError {
    NoSuitableMemoryType,
    NeedDeviceMemory { memory_type_index: u32, chunk_size: usize, fallback_size: usize },
}

/// The size and alignment a buffer needs, and the bitset of memory types
/// that may back it.
#[derive(Debug, Clone, Copy, PartialEq, Eq, Structural)]
pub struct MemoryRequirements {
    pub size: usize,
    pub alignment: usize,
    pub memory_type_bits: u32,
}

/// All chunks of one memory type, ordered by strictly increasing chunk id.
#[derive(Debug)]
pub struct MemPool {
    pub memory_type_index: u32,
    pub next_chunk_id: u32,
    pub chunks: Vec<MemChunk>,
}

/// Whether some chunk of the pool holds the used block backing the
/// allocation; what a verified caller needs in order to free it later.
pub open spec fn pool_has_backing(p: MemPool, a: Allocation) -> bool {
    exists|ci: int|
        0 <= ci < p.chunks@.len() && (#[trigger] p.chunks@[ci]).id == a.chunk_id
            && chunk_has_backing(p.chunks@[ci], a.offset as int, a.size as int)
}

/// How a successful pool allocation changes the pool: the first matching
/// chunk with room serves it (everything before had no fitting block), its
/// used counter grows by the request, it now holds the backing block, and
/// every other chunk is untouched.
pub open spec fn pool_alloc_effect(
    p0: MemPool,
    p1: MemPool,
    a: Allocation,
    size: int,
    alignment: int,
    mapped: bool,
) -> bool {
    exists|ci: int|
        {
            &&& 0 <= ci < p0.chunks@.len()
            &&& (#[trigger] p0.chunks@[ci]).mapped == mapped
            &&& a.chunk_id == p0.chunks@[ci].id
            &&& a.memory == p0.chunks@[ci].memory
            &&& (forall|cj: int|
                0 <= cj < p0.chunks@.len() && cj != ci ==> p1.chunks@[cj] == p0.chunks@[cj])
            &&& p1.chunks@[ci].id == p0.chunks@[ci].id
            &&& p1.chunks@[ci].size == p0.chunks@[ci].size
            &&& p1.chunks@[ci].memory == p0.chunks@[ci].memory
            &&& p1.chunks@[ci].mapped == p0.chunks@[ci].mapped
            &&& p1.chunks@[ci].used == p0.chunks@[ci].used + size
            &&& chunk_has_backing(p1.chunks@[ci], a.offset as int, a.size as int)
            &&& (forall|cj: int, k: int|
                0 <= cj < ci && (#[trigger] p0.chunks@[cj]).mapped == mapped && 0 <= k
                    < p0.chunks@[cj].blocks@.len() ==> !block_fits(
                    #[trigger] p0.chunks@[cj].blocks@[k],
                    size,
                    alignment,
                ))
        }
}

/// How freeing changes the pool: in the chunk with the allocation's id the
/// backing block turns free (at the same offset and size), that chunk's
/// used counter drops by the allocation, and every other chunk is
/// untouched.
pub open spec fn pool_free_effect(
    p0: MemPool,
    p1: MemPool,
    chunk_id: u32,
    offset: int,
    size: int,
) -> bool {
    exists|ci: int|
        {
            &&& 0 <= ci < p0.chunks@.len()
            &&& (#[trigger] p0.chunks@[ci]).id == chunk_id
            &&& (forall|cj: int|
                0 <= cj < p0.chunks@.len() && cj != ci ==> p1.chunks@[cj] == p0.chunks@[cj])
            &&& p1.chunks@[ci].id == p0.chunks@[ci].id
            &&& p1.chunks@[ci].size == p0.chunks@[ci].size
            &&& p1.chunks@[ci].memory == p0.chunks@[ci].memory
            &&& p1.chunks@[ci].mapped == p0.chunks@[ci].mapped
            &&& p1.chunks@[ci].used == p0.chunks@[ci].used - size
            &&& exists|k: int|
                {
                    &&& 0 <= k < p0.chunks@[ci].blocks@.len()
                    &&& #[trigger] p0.chunks@[ci].blocks@[k] == (MemBlock {
                        offset: offset as usize,
                        size: size as usize,
                        is_free: false,
                    })
                    &&& p1.chunks@[ci].blocks@ == p0.chunks@[ci].blocks@.update(
                        k,
                        (MemBlock { offset: offset as usize, size: size as usize, is_free: true }),
                    )
                }
        }
}

impl MemPool {
    pub open spec fn wf(&self) -> bool {
        &&& forall|k: int|
            0 <= k < self.chunks@.len() ==> (#[trigger] self.chunks@[k]).wf()
                && self.chunks@[k].id < self.next_chunk_id
        &&& forall|k1: int, k2: int|
            0 <= k1 < k2 < self.chunks@.len() ==> self.chunks@[k1].id < self.chunks@[k2].id
    }

    pub fn new(memory_type_index: u32) -> (r: Self)
        ensures
            r.wf(),
            r.memory_type_index == memory_type_index,
            r.chunks@.len() == 0,
            r.next_chunk_id == 0,
    {
        MemPool { memory_type_index, next_chunk_id: 0, chunks: Vec::new() }
    }

    /// First-fits the request in the existing chunks whose mapping matches.
    /// Fails exactly when no block of any matching chunk fits; the caller
    /// then brings new device memory through [`Self::grow`].
    pub fn allocate(&mut self, size: usize, alignment: usize, mapped: bool) -> (r: Option<Allocation>)
        requires
            old(self).wf(),
            size > 0,
            alignment > 0,
        ensures
            final(self).wf(),
            final(self).memory_type_index == old(self).memory_type_index,
            final(self).next_chunk_id == old(self).next_chunk_id,
            final(self).chunks@.len() == old(self).chunks@.len(),
            r is None ==> final(self).chunks@ == old(self).chunks@,
            r is None ==> forall|ci: int, k: int|
                0 <= ci < old(self).chunks@.len() && (#[trigger] old(self).chunks@[ci]).mapped
                    == mapped && 0 <= k < old(self).chunks@[ci].blocks@.len() ==> !block_fits(
                    #[trigger] old(self).chunks@[ci].blocks@[k],
                    size as int,
                    alignment as int,
                ),
            r matches Some(a) ==> {
                &&& a.wf()
                &&& a.offset % alignment == 0
                &&& a.size == size
                &&& a.is_mapped() == mapped
                &&& a.memory_type_index == old(self).memory_type_index
                &&& pool_has_backing(*final(self), a)
                &&& pool_alloc_effect(*old(self), *final(self), a, size as int, alignment as int, mapped)
            },
    {
        let mti = self.memory_type_index;
        let mut ci: usize = 0;
        while ci < self.chunks.len()
            invariant
                old(self).wf(),
                self.wf(),
                size > 0,
                alignment > 0,
                0 <= ci <= self.chunks@.len(),
                self.memory_type_index == old(self).memory_type_index,
                mti == self.memory_type_index,
                self.next_chunk_id == old(self).next_chunk_id,
                self.chunks@ == old(self).chunks@,
                forall|cj: int, k: int|
                    0 <= cj < ci && (#[trigger] self.chunks@[cj]).mapped == mapped && 0 <= k
                        < self.chunks@[cj].blocks@.len() ==> !block_fits(
                        #[trigger] self.chunks@[cj].blocks@[k],
                        size as int,
                        alignment as int,
                    ),
            decreases self.chunks@.len() - ci,
        {
            let ghost prev = self.chunks@;
            let chunk = &mut self.chunks[ci];
            if chunk.mapped == mapped {
                let r = chunk.try_alloc(size, alignment, mti);
                match r {
                    Some(a) => {
                        proof {
                            assert forall|k1: int, k2: int|
                                0 <= k1 < k2 < self.chunks@.len() implies self.chunks@[k1].id
                                < self.chunks@[k2].id by {
                                assert(prev[k1].id < prev[k2].id);
                            }
                            assert(self.chunks@[ci as int].id == prev[ci as int].id);
                            assert(chunk_has_backing(
                                self.chunks@[ci as int],
                                a.offset as int,
                                a.size as int,
                            ));
                            assert forall|cj: int|
                                0 <= cj < prev.len() && cj != ci implies self.chunks@[cj]
                                == prev[cj] by {}
                            assert(pool_has_backing(*self, a));
                            assert(pool_alloc_effect(
                                *old(self),
                                *self,
                                a,
                                size as int,
                                alignment as int,
                                mapped,
                            ));
                        }
                        return Some(a);
                    },
                    None => {
                        proof {
                            assert(self.chunks@ =~= prev);
                        }
                    },
                }
            } else {
                proof {
                    assert(self.chunks@ =~= prev);
                }
            }
            ci = ci + 1;
        }
        None
    }

    /// Adds a fresh device-memory region as a new chunk with the next id
    /// and serves the request from it.
    pub fn grow(
        &mut self,
        memory: u64,
        chunk_size: usize,
        size: usize,
        alignment: usize,
        mapped: bool,
    ) -> (a: Allocation)
        requires
            old(self).wf(),
            size > 0,
            alignment > 0,
            chunk_size >= size,
            old(self).next_chunk_id < u32::MAX,
        ensures
            final(self).wf(),
            final(self).memory_type_index == old(self).memory_type_index,
            final(self).next_chunk_id == old(self).next_chunk_id + 1,
            final(self).chunks@.len() == old(self).chunks@.len() + 1,
            forall|cj: int|
                0 <= cj < old(self).chunks@.len() ==> final(self).chunks@[cj] == old(self).chunks@[cj],
            final(self).chunks@[old(self).chunks@.len() as int].id == old(self).next_chunk_id,
            final(self).chunks@[old(self).chunks@.len() as int].size == chunk_size,
            final(self).chunks@[old(self).chunks@.len() as int].mapped == mapped,
            a.wf(),
            a.offset % alignment == 0,
            a.size == size,
            a.is_mapped() == mapped,
            a.memory == memory,
            a.memory_type_index == old(self).memory_type_index,
            a.chunk_id == old(self).next_chunk_id,
            pool_has_backing(*final(self), a),
    {
        let id = self.next_chunk_id;
        self.next_chunk_id = self.next_chunk_id + 1;
        let mut chunk = MemChunk::new(id, chunk_size, memory, mapped);
        let r = chunk.try_alloc(size, alignment, self.memory_type_index);
        match r {
            Some(a) => {
                let ghost prev = self.chunks@;
                self.chunks.push(chunk);
                proof {
                    assert forall|k1: int, k2: int|
                        0 <= k1 < k2 < self.chunks@.len() implies self.chunks@[k1].id
                        < self.chunks@[k2].id by {
                        if k2 < prev.len() {
                            assert(prev[k1].id < prev[k2].id);
                        } else {
                            assert(prev[k1].id < id);
                        }
                    }
                    assert(self.chunks@[prev.len() as int].id == a.chunk_id);
                    assert(chunk_has_backing(
                        self.chunks@[prev.len() as int],
                        a.offset as int,
                        a.size as int,
                    ));
                    assert(pool_has_backing(*self, a));
                }
                a
            },
            None => {
                proof {
                    // a fresh chunk holds one free block that fits the
                    // request, so the first fit cannot have failed
                    assert(align_pad(0, alignment as int) == 0);
                    assert(false);
                }
                vstd::pervasive::unreached()
            },
        }
    }

    /// Returns an allocation's bytes to its chunk.
    pub fn free(&mut self, chunk_id: u32, offset: usize, size: usize)
        requires
            old(self).wf(),
            exists|ci: int|
                0 <= ci < old(self).chunks@.len() && (#[trigger] old(self).chunks@[ci]).id
                    == chunk_id && exists|k: int|
                    0 <= k < old(self).chunks@[ci].blocks@.len() && (
                    #[trigger] old(self).chunks@[ci].blocks@[k]).offset == offset
                        && !old(self).chunks@[ci].blocks@[k].is_free
                        && old(self).chunks@[ci].blocks@[k].size == size,
        ensures
            final(self).wf(),
            final(self).memory_type_index == old(self).memory_type_index,
            final(self).next_chunk_id == old(self).next_chunk_id,
            final(self).chunks@.len() == old(self).chunks@.len(),
            pool_free_effect(*old(self), *final(self), chunk_id, offset as int, size as int),
    {
        let mut ci: usize = 0;
        while ci < self.chunks.len()
            invariant
                old(self).wf(),
                self.wf(),
                0 <= ci <= self.chunks@.len(),
                self.chunks@ == old(self).chunks@,
                self.memory_type_index == old(self).memory_type_index,
                self.next_chunk_id == old(self).next_chunk_id,
                exists|cj: int|
                    ci <= cj < self.chunks@.len() && (#[trigger] self.chunks@[cj]).id == chunk_id
                        && exists|k: int|
                        0 <= k < self.chunks@[cj].blocks@.len() && (
                        #[trigger] self.chunks@[cj].blocks@[k]).offset == offset
                            && !self.chunks@[cj].blocks@[k].is_free
                            && self.chunks@[cj].blocks@[k].size == size,
            decreases self.chunks@.len() - ci,
        {
            let ghost prev = self.chunks@;
            let id_here = self.chunks[ci].id;
            if id_here == chunk_id {
                proof {
                    let cj = choose|cj: int|
                        ci <= cj < self.chunks@.len() && (#[trigger] self.chunks@[cj]).id
                            == chunk_id && exists|k: int|
                            0 <= k < self.chunks@[cj].blocks@.len() && (
                            #[trigger] self.chunks@[cj].blocks@[k]).offset == offset
                                && !self.chunks@[cj].blocks@[k].is_free
                                && self.chunks@[cj].blocks@[k].size == size;
                    if cj != ci {
                        assert(self.chunks@[ci as int].id < self.chunks@[cj].id);
                    }
                }
                let chunk = &mut self.chunks[ci];
                chunk.free(offset, size);
                proof {
                    assert forall|k1: int, k2: int|
                        0 <= k1 < k2 < self.chunks@.len() implies self.chunks@[k1].id
                        < self.chunks@[k2].id by {
                        assert(prev[k1].id < prev[k2].id);
                    }
                    assert forall|cj: int|
                        0 <= cj < prev.len() && cj != ci implies self.chunks@[cj] == prev[cj] by {}
                    assert(pool_free_effect(
                        *old(self),
                        *self,
                        chunk_id,
                        offset as int,
                        size as int,
                    ));
                }
                return ;
            }
            proof {
                let cj = choose|cj: int|
                    ci <= cj < self.chunks@.len() && (#[trigger] self.chunks@[cj]).id == chunk_id
                        && exists|k: int|
                        0 <= k < self.chunks@[cj].blocks@.len() && (
                        #[trigger] self.chunks@[cj].blocks@[k]).offset == offset
                            && !self.chunks@[cj].blocks@[k].is_free
                            && self.chunks@[cj].blocks@[k].size == size;
                assert(cj != ci);
            }
            ci = ci + 1;
        }
        proof {
            assert(false);
        }
    }
}

/// Whether memory type `i` may back the request: its bit is set in the
/// request's type bitset and it carries all requested property flags.
pub open spec fn suitable_type(types: Seq<u32>, properties: u32, memory_type_bits: u32, i: int) -> bool {
    &&& memory_type_bits & (1u32 << (i as u32)) != 0
    &&& types[i] & properties == properties
}

/// Picks the first memory type that may back the request.
pub fn get_memory_type_index(types: &Vec<u32>, properties: u32, memory_type_bits: u32) -> (r:
    Option<u32>)
    requires
        types@.len() <= 32,
    ensures
        r matches Some(i) ==> i < types@.len() && suitable_type(
            types@,
            properties,
            memory_type_bits,
            i as int,
        ) && forall|j: int|
            0 <= j < i ==> !suitable_type(types@, properties, memory_type_bits, j),
        r is None ==> forall|j: int|
            0 <= j < types@.len() ==> !suitable_type(types@, properties, memory_type_bits, j),
{
    let mut i: usize = 0;
    while i < types.len()
        invariant
            types@.len() <= 32,
            0 <= i <= types@.len(),
            forall|j: int| 0 <= j < i ==> !suitable_type(types@, properties, memory_type_bits, j),
        decreases types@.len() - i,
    {
        let suitable = memory_type_bits & (1u32 << (i as u32)) != 0 && types[i] & properties
            == properties;
        if suitable {
            return Some(i as u32);
        }
        i = i + 1;
    }
    None
}

/// The alignment an allocation really has to satisfy: a mapped allocation
/// is flushed in units of the device's non-coherent atom size, so its
/// offset must also land on a multiple of that.
pub open spec fn effective_alignment(alignment: int, mapped: bool, atom: int) -> int {
    if mapped && alignment < atom {
        atom
    } else {
        alignment
    }
}

/// The suballocator: one pool per memory type of the device.
#[derive(Debug)]
pub struct Allocator {
    pub memory_types: Vec<u32>,
    pub non_coherent_atom_size: usize,
    pub pools: Vec<MemPool>,
}

impl Allocator {
    pub open spec fn wf(&self) -> bool {
        &&& self.pools@.len() == self.memory_types@.len()
        &&& self.memory_types@.len() <= 32
        &&& self.non_coherent_atom_size > 0
        &&& forall|k: int|
            0 <= k < self.pools@.len() ==> (#[trigger] self.pools@[k]).wf()
                && self.pools@[k].memory_type_index == k
    }

    /// One pool per memory type, given each type's property flags.
    pub fn new(memory_types: Vec<u32>, non_coherent_atom_size: usize) -> (r: Self)
        requires
            memory_types@.len() <= 32,
            non_coherent_atom_size > 0,
        ensures
            r.wf(),
            r.memory_types@ == memory_types@,
            r.non_coherent_atom_size == non_coherent_atom_size,
            forall|k: int|
                0 <= k < r.pools@.len() ==> (#[trigger] r.pools@[k]).next_chunk_id == 0
                    && r.pools@[k].chunks@.len() == 0,
    {
        let mut pools: Vec<MemPool> = Vec::new();
        let mut i: usize = 0;
        while i < memory_types.len()
            invariant
                0 <= i <= memory_types@.len(),
                memory_types@.len() <= 32,
                pools@.len() == i,
                forall|k: int|
                    0 <= k < i ==> (#[trigger] pools@[k]).wf() && pools@[k].memory_type_index == k
                        && pools@[k].next_chunk_id == 0 && pools@[k].chunks@.len() == 0,
            decreases memory_types@.len() - i,
        {
            pools.push(MemPool::new(i as u32));
            i = i + 1;
        }
        Allocator { memory_types, non_coherent_atom_size, pools }
    }

    /// Serves an allocation from the first suitable memory type's pool.
    /// When the pool has no room the caller learns exactly how much device
    /// memory to bring to [`Self::grow`]; when no memory type is suitable
    /// (and only then) the request is refused outright.
    pub fn allocate(&mut self, properties: u32, requirements: MemoryRequirements, mapped: bool) -> (r:
        Result<Allocation, AllocError>)
        requires
            old(self).wf(),
            requirements.size > 0,
            requirements.alignment > 0,
        ensures
            final(self).wf(),
            final(self).memory_types@ == old(self).memory_types@,
            final(self).non_coherent_atom_size == old(self).non_coherent_atom_size,
            final(self).pools@.len() == old(self).pools@.len(),
            // no call moves a pool's id counter or loses a chunk
            forall|k: int|
                0 <= k < old(self).pools@.len() ==> (#[trigger] final(self).pools@[k]).next_chunk_id
                    == old(self).pools@[k].next_chunk_id && final(self).pools@[k].chunks@.len()
                    == old(self).pools@[k].chunks@.len(),
            r matches Ok(a) ==> {
                &&& a.wf()
                &&& a.offset as int % effective_alignment(
                    requirements.alignment as int,
                    mapped,
                    old(self).non_coherent_atom_size as int,
                ) == 0
                &&& a.size == requirements.size
                &&& a.is_mapped() == mapped
                &&& a.memory_type_index < old(self).pools@.len()
                &&& suitable_type(
                    old(self).memory_types@,
                    properties,
                    requirements.memory_type_bits,
                    a.memory_type_index as int,
                )
                &&& (forall|j: int|
                    0 <= j < a.memory_type_index ==> !suitable_type(
                        old(self).memory_types@,
                        properties,
                        requirements.memory_type_bits,
                        j,
                    ))
                &&& pool_has_backing(final(self).pools@[a.memory_type_index as int], a)
                &&& pool_alloc_effect(
                    old(self).pools@[a.memory_type_index as int],
                    final(self).pools@[a.memory_type_index as int],
                    a,
                    requirements.size as int,
                    effective_alignment(
                        requirements.alignment as int,
                        mapped,
                        old(self).non_coherent_atom_size as int,
                    ),
                    mapped,
                )
                &&& (forall|k: int|
                    0 <= k < old(self).pools@.len() && k != a.memory_type_index ==> final(self).pools@[k] == old(self).pools@[k])
            },
            r is Err ==> forall|k: int|
                0 <= k < old(self).pools@.len() ==> (#[trigger] final(self).pools@[k]).chunks@
                    == old(self).pools@[k].chunks@,
            (r == Err::<Allocation, AllocError>(AllocError::NoSuitableMemoryType)) <==> (forall|
                j: int,
            |
                0 <= j < old(self).memory_types@.len() ==> !suitable_type(
                    old(self).memory_types@,
                    properties,
                    requirements.memory_type_bits,
                    j,
                )),
            r matches Err(AllocError::NeedDeviceMemory {
                memory_type_index,
                chunk_size,
                fallback_size,
            }) ==> {
                &&& memory_type_index < old(self).pools@.len()
                &&& suitable_type(
                    old(self).memory_types@,
                    properties,
                    requirements.memory_type_bits,
                    memory_type_index as int,
                )
                &&& chunk_size == if MIN_CHUNK_SIZE >= requirements.size {
                    MIN_CHUNK_SIZE as int
                } else {
                    requirements.size as int
                }
                &&& fallback_size == requirements.size
                &&& chunk_size >= requirements.size
                &&& (forall|ci: int, k: int|
                    0 <= ci < old(self).pools@[memory_type_index as int].chunks@.len() && (
                    #[trigger] old(self).pools@[memory_type_index as int].chunks@[ci]).mapped
                        == mapped && 0 <= k < old(self).pools@[memory_type_index as int].chunks@[ci].blocks@.len() ==> !block_fits(
                        #[trigger] old(self).pools@[memory_type_index as int].chunks@[ci].blocks@[k],
                        requirements.size as int,
                        effective_alignment(
                            requirements.alignment as int,
                            mapped,
                            old(self).non_coherent_atom_size as int,
                        ),
                    ))
            },
    {
        let eff_align = if mapped && requirements.alignment < self.non_coherent_atom_size {
            self.non_coherent_atom_size
        } else {
            requirements.alignment
        };
        let type_index = get_memory_type_index(
            &self.memory_types,
            properties,
            requirements.memory_type_bits,
        );
        match type_index {
            None => Err(AllocError::NoSuitableMemoryType),
            Some(ti) => {
                let ghost prev = self.pools@;
                let pool = &mut self.pools[ti as usize];
                let r = pool.allocate(requirements.size, eff_align, mapped);
                proof {
                    assert forall|k: int|
                        0 <= k < self.pools@.len() implies (#[trigger] self.pools@[k]).wf()
                        && self.pools@[k].memory_type_index == k by {
                        if k != ti {
                            assert(self.pools@[k] == prev[k]);
                        }
                    }
                }
                match r {
                    Some(a) => Ok(a),
                    None => {
                        let chunk_size = if MIN_CHUNK_SIZE >= requirements.size {
                            MIN_CHUNK_SIZE
                        } else {
                            requirements.size
                        };
                        Err(
                            AllocError::NeedDeviceMemory {
                                memory_type_index: ti,
                                chunk_size,
                                fallback_size: requirements.size,
                            },
                        )
                    },
                }
            },
        }
    }

    /// Serves the request from a fresh device-memory region after
    /// [`Self::allocate`] asked for one.
    pub fn grow(
        &mut self,
        memory_type_index: u32,
        memory: u64,
        got_size: usize,
        requirements: MemoryRequirements,
        mapped: bool,
    ) -> (a: Allocation)
        requires
            old(self).wf(),
            memory_type_index < old(self).pools@.len(),
            requirements.size > 0,
            requirements.alignment > 0,
            got_size >= requirements.size,
            old(self).pools@[memory_type_index as int].next_chunk_id < u32::MAX,
        ensures
            final(self).wf(),
            final(self).memory_types@ == old(self).memory_types@,
            final(self).non_coherent_atom_size == old(self).non_coherent_atom_size,
            final(self).pools@.len() == old(self).pools@.len(),
            final(self).pools@[memory_type_index as int].chunks@.len() == old(self).pools@[memory_type_index as int].chunks@.len() + 1,
            final(self).pools@[memory_type_index as int].next_chunk_id == old(self).pools@[memory_type_index as int].next_chunk_id + 1,
            forall|cj: int|
                0 <= cj < old(self).pools@[memory_type_index as int].chunks@.len() ==> final(self).pools@[memory_type_index as int].chunks@[cj] == old(self).pools@[memory_type_index as int].chunks@[cj],
            forall|k: int|
                0 <= k < old(self).pools@.len() && k != memory_type_index ==> final(self).pools@[k] == old(self).pools@[k],
            a.wf(),
            a.offset as int % effective_alignment(
                requirements.alignment as int,
                mapped,
                old(self).non_coherent_atom_size as int,
            ) == 0,
            a.size == requirements.size,
            a.is_mapped() == mapped,
            a.memory == memory,
            a.memory_type_index == memory_type_index,
            a.chunk_id == old(self).pools@[memory_type_index as int].next_chunk_id,
            pool_has_backing(final(self).pools@[memory_type_index as int], a),
    {
        let eff_align = if mapped && requirements.alignment < self.non_coherent_atom_size {
            self.non_coherent_atom_size
        } else {
            requirements.alignment
        };
        let ghost prev = self.pools@;
        let pool = &mut self.pools[memory_type_index as usize];
        let a = pool.grow(memory, got_size, requirements.size, eff_align, mapped);
        proof {
            assert forall|k: int|
                0 <= k < self.pools@.len() implies (#[trigger] self.pools@[k]).wf()
                && self.pools@[k].memory_type_index == k by {
                if k != memory_type_index {
                    assert(self.pools@[k] == prev[k]);
                }
            }
        }
        a
    }

    /// Returns an allocation's bytes to the pool it came from.
    pub fn free(&mut self, allocation: &Allocation)
        requires
            old(self).wf(),
            allocation.memory_type_index < old(self).pools@.len(),
            pool_has_backing(old(self).pools@[allocation.memory_type_index as int], *allocation),
        ensures
            final(self).wf(),
            final(self).memory_types@ == old(self).memory_types@,
            final(self).non_coherent_atom_size == old(self).non_coherent_atom_size,
            final(self).pools@.len() == old(self).pools@.len(),
            forall|k: int|
                0 <= k < old(self).pools@.len() && k != allocation.memory_type_index ==> final(self).pools@[k] == old(self).pools@[k],
            pool_free_effect(
                old(self).pools@[allocation.memory_type_index as int],
                final(self).pools@[allocation.memory_type_index as int],
                allocation.chunk_id,
                allocation.offset as int,
                allocation.size as int,
            ),
    {
        let ghost prev = self.pools@;
        proof {
            let p = self.pools@[allocation.memory_type_index as int];
            let ci = choose|ci: int|
                0 <= ci < p.chunks@.len() && (#[trigger] p.chunks@[ci]).id == allocation.chunk_id
                    && chunk_has_backing(p.chunks@[ci], allocation.offset as int, allocation.size as int);
            let k = choose|k: int|
                0 <= k < p.chunks@[ci].blocks@.len() && (#[trigger] p.chunks@[ci].blocks@[k]) == (
                MemBlock { offset: allocation.offset, size: allocation.size, is_free: false });
            assert(p.chunks@[ci].blocks@[k].offset == allocation.offset
                && !p.chunks@[ci].blocks@[k].is_free && p.chunks@[ci].blocks@[k].size
                == allocation.size);
        }
        let pool = &mut self.pools[allocation.memory_type_index as usize];
        pool.free(allocation.chunk_id, allocation.offset, allocation.size);
        proof {
            assert forall|k: int|
                0 <= k < self.pools@.len() implies (#[trigger] self.pools@[k]).wf()
                && self.pools@[k].memory_type_index == k by {
                if k != allocation.memory_type_index {
                    assert(self.pools@[k] == prev[k]);
                }
            }
        }
    }
}

} // verus!
