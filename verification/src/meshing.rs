//! The mesher worker's upload ring: each worker owns a few copy slots,
//! each with a fence, a staging buffer and, while a copy is in flight, the
//! chunk and destination buffer of that copy. The worker polls the fences,
//! installs finished uploads on their chunks, and reuses the freed slot
//! for the next mesh.

use vstd::prelude::*;

use crate::pos::ChunkPos;
use crate::world::VertexBuffer;

verus! {

/// Copy slots per mesher worker.
pub const IN_FLIGHT_COPIES: usize = 4;

/// The copy a slot is busy with: the chunk whose mesh is on its way to the
/// device and the buffer it goes into.
#[derive(Debug, Clone, Copy, PartialEq, Eq, Structural)]
pub struct InCopy {
    pub pos: ChunkPos,
    pub buffer: VertexBuffer,
}

/// The position `c` steps after `start_at`, wrapping around `len` slots.
pub open spec fn cyclic_index(start_at: int, c: int, len: int) -> int {
    (start_at + c) % len
}

/// Finds the first signaled fence, scanning cyclically from `start_at`;
/// nothing when no fence is signaled, so the caller must block on all of
/// them.
pub fn first_signaled(signaled: &Vec<bool>, start_at: usize) -> (r: Option<usize>)
    requires
        signaled@.len() > 0,
        start_at < signaled@.len(),
    ensures
        r matches Some(i) ==> {
            &&& i < signaled@.len()
            &&& signaled@[i as int]
            &&& exists|c: int|
                0 <= c < signaled@.len() && i == cyclic_index(
                    start_at as int,
                    c,
                    signaled@.len() as int,
                ) && forall|c2: int|
                    0 <= c2 < c ==> !signaled@[cyclic_index(
                        start_at as int,
                        c2,
                        signaled@.len() as int,
                    )]
        },
        r is None ==> forall|k: int| 0 <= k < signaled@.len() ==> !signaled@[k],
    {
        let len = signaled.len();
        let mut checked: usize = 0;
        let mut i = start_at;
        proof {
            vstd::arithmetic::div_mod::lemma_small_mod(start_at as nat, len as nat);
        }
        while checked < len
            invariant
                len == signaled@.len(),
                0 < len,
                start_at < len,
                0 <= checked <= len,
                i == cyclic_index(start_at as int, checked as int, len as int),
                0 <= i < len,
                forall|c2: int|
                    0 <= c2 < checked ==> !signaled@[cyclic_index(
                        start_at as int,
                        c2,
                        len as int,
                    )],
            decreases len - checked,
        {
            if signaled[i] {
                return Some(i);
            }
            checked = checked + 1;
            i = (i + 1) % len;
            proof {
                crate::meshing::lemma_cyclic_step(start_at as int, checked as int, len as int);
            }
        }
        proof {
            assert forall|k: int| 0 <= k < len implies !signaled@[k] by {
                lemma_cyclic_covers(start_at as int, k, len as int);
            }
        }
        None
    }

/// Stepping the cyclic scan once advances the cyclic index by one.
proof fn lemma_cyclic_step(start_at: int, checked: int, len: int)
    requires
        0 < len,
        0 < checked,
        0 <= start_at,
    ensures
        cyclic_index(start_at, checked, len) == (cyclic_index(start_at, checked - 1, len) + 1)
            % len,
{
    let a = start_at + checked - 1;
    vstd::arithmetic::div_mod::lemma_fundamental_div_mod(a, len);
    vstd::arithmetic::div_mod::lemma_mod_bound(a, len);
    let q = a / len;
    let r = a % len;
    if r + 1 < len {
        assert(a + 1 == q * len + (r + 1)) by (nonlinear_arith)
            requires
                a == len * q + r,
        ;
        vstd::arithmetic::div_mod::lemma_fundamental_div_mod_converse(a + 1, len, q, r + 1);
        vstd::arithmetic::div_mod::lemma_small_mod((r + 1) as nat, len as nat);
    } else {
        assert(a + 1 == (q + 1) * len + 0) by (nonlinear_arith)
            requires
                a == len * q + r,
                r + 1 == len,
        ;
        vstd::arithmetic::div_mod::lemma_fundamental_div_mod_converse(a + 1, len, q + 1, 0);
        vstd::arithmetic::div_mod::lemma_mod_self_0(len);
        vstd::arithmetic::div_mod::lemma_mod_equivalence(r + 1, 0, len);
    }
}

/// Every slot index is reached by the cyclic scan within `len` steps.
proof fn lemma_cyclic_covers(start_at: int, k: int, len: int)
    requires
        0 < len,
        0 <= start_at < len,
        0 <= k < len,
    ensures
        exists|c: int| 0 <= c < len && k == cyclic_index(start_at, c, len),
{
    let c = if k >= start_at {
        k - start_at
    } else {
        k + len - start_at
    };
    let q: int = if k >= start_at {
        0
    } else {
        1
    };
    assert(start_at + c == q * len + k) by (nonlinear_arith)
        requires
            (k >= start_at ==> q == 0 && c == k - start_at) && (k < start_at ==> q == 1 && c == k
                + len - start_at),
    ;
    vstd::arithmetic::div_mod::lemma_fundamental_div_mod_converse(start_at + c, len, q, k);
    assert(k == cyclic_index(start_at, c, len));
}

/// How many slots hold a copy in flight.
pub open spec fn copies_in_flight(s: Seq<Option<InCopy>>) -> nat
    decreases s.len(),
{
    if s.len() == 0 {
        0
    } else {
        copies_in_flight(s.drop_last()) + if s.last() is Some {
            1nat
        } else {
            0nat
        }
    }
}

proof fn lemma_copies_update(s: Seq<Option<InCopy>>, i: int, v: Option<InCopy>)
    requires
        0 <= i < s.len(),
    ensures
        copies_in_flight(s.update(i, v)) + (if s[i] is Some {
            1nat
        } else {
            0nat
        }) == copies_in_flight(s) + (if v is Some {
            1nat
        } else {
            0nat
        }),
    decreases s.len(),
{
    if i == s.len() - 1 {
        assert(s.update(i, v).drop_last() =~= s.drop_last());
        assert(s.update(i, v).last() == v);
    } else {
        assert(s.update(i, v).drop_last() =~= s.drop_last().update(i, v));
        assert(s.update(i, v).last() == s.last());
        lemma_copies_update(s.drop_last(), i, v);
    }
}

/// One worker's ring of copy slots and its scan cursor.
#[derive(Debug)]
pub struct MeshWorkerSlots {
    pub in_copy: Vec<Option<InCopy>>,
    pub cursor: usize,
    pub current_copies: usize,
}

impl MeshWorkerSlots {
    pub open spec fn wf(&self) -> bool {
        &&& self.in_copy@.len() == IN_FLIGHT_COPIES
        &&& self.cursor < IN_FLIGHT_COPIES
        &&& self.current_copies == copies_in_flight(self.in_copy@)
    }

    pub fn new() -> (r: Self)
        ensures
            r.wf(),
            r.current_copies == 0,
            r.cursor == 0,
            forall|k: int| 0 <= k < IN_FLIGHT_COPIES ==> (#[trigger] r.in_copy@[k]) is None,
    {
        let mut in_copy: Vec<Option<InCopy>> = Vec::new();
        let mut k: usize = 0;
        while k < IN_FLIGHT_COPIES
            invariant
                0 <= k <= IN_FLIGHT_COPIES,
                in_copy@.len() == k,
                copies_in_flight(in_copy@) == 0,
                forall|j: int| 0 <= j < k ==> (#[trigger] in_copy@[j]) is None,
            decreases IN_FLIGHT_COPIES - k,
        {
            let ghost prev = in_copy@;
            in_copy.push(None);
            proof {
                assert(in_copy@.drop_last() =~= prev);
            }
            k = k + 1;
        }
        MeshWorkerSlots { in_copy, cursor: 0, current_copies: 0 }
    }

    /// Whether the worker may block on the queue without a timeout: only
    /// when no copy is in flight, else a finished fence could go unnoticed
    /// and its chunk's buffer uninstalled.
    pub fn may_block_on_receive(&self) -> (r: bool)
        requires
            self.wf(),
        ensures
            r == (copies_in_flight(self.in_copy@) == 0),
    {
        self.current_copies == 0
    }

    /// Takes the finished copy out of a slot whose fence signaled; the
    /// caller installs the returned buffer on its chunk. Moves the cursor
    /// to the freed slot.
    pub fn complete(&mut self, slot: usize) -> (r: Option<InCopy>)
        requires
            old(self).wf(),
            slot < IN_FLIGHT_COPIES,
        ensures
            final(self).wf(),
            r == old(self).in_copy@[slot as int],
            final(self).in_copy@ == old(self).in_copy@.update(slot as int, None::<InCopy>),
            final(self).cursor == slot,
            r is Some ==> final(self).current_copies == old(self).current_copies - 1,
            r is None ==> final(self).current_copies == old(self).current_copies,
    {
        let r = self.in_copy[slot];
        proof {
            lemma_copies_update(self.in_copy@, slot as int, None::<InCopy>);
            if r is Some {
                assert(copies_in_flight(self.in_copy@) >= 1) by {
                    lemma_copies_lower(self.in_copy@, slot as int);
                }
            }
        }
        self.in_copy[slot] = None;
        self.cursor = slot;
        if r.is_some() {
            self.current_copies = self.current_copies - 1;
        }
        r
    }

    /// Records that a copy was submitted on a free slot, with its fence
    /// reset and the staging range flushed.
    pub fn begin_copy(&mut self, slot: usize, pos: ChunkPos, buffer: VertexBuffer)
        requires
            old(self).wf(),
            slot < IN_FLIGHT_COPIES,
            old(self).in_copy@[slot as int] is None,
        ensures
            final(self).wf(),
            final(self).in_copy@ == old(self).in_copy@.update(
                slot as int,
                Some(InCopy { pos, buffer }),
            ),
            final(self).cursor == old(self).cursor,
            final(self).current_copies == old(self).current_copies + 1,
    {
        proof {
            lemma_copies_update(self.in_copy@, slot as int, Some(InCopy { pos, buffer }));
            lemma_copies_le_len(self.in_copy@);
        }
        self.in_copy[slot] = Some(InCopy { pos, buffer });
        self.current_copies = self.current_copies + 1;
    }
}

/// A busy slot counts toward the in-flight total.
proof fn lemma_copies_lower(s: Seq<Option<InCopy>>, i: int)
    requires
        0 <= i < s.len(),
        s[i] is Some,
    ensures
        copies_in_flight(s) >= 1,
    decreases s.len(),
{
    if i < s.len() - 1 {
        assert(s.drop_last()[i] == s[i]);
        lemma_copies_lower(s.drop_last(), i);
    }
}

/// No more copies in flight than slots.
proof fn lemma_copies_le_len(s: Seq<Option<InCopy>>)
    ensures
        copies_in_flight(s) <= s.len(),
    decreases s.len(),
{
    if s.len() > 0 {
        lemma_copies_le_len(s.drop_last());
    }
}

} // verus!
