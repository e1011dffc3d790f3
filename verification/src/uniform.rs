//! The camera uniform ring: one persistently mapped buffer with one slot
//! per swapchain image, written every frame. Each slot must start on a
//! multiple of the device's minimum uniform-buffer offset alignment; the
//! stride and per-slot offsets are computed here, the buffer itself lives
//! on the device.

use vstd::prelude::*;
use vstd::arithmetic::div_mod::{lemma_fundamental_div_mod, lemma_mod_multiples_basic};

verus! {

/// The byte stride between uniform slots: the entry size rounded up to
/// the device's minimum uniform-buffer offset alignment.
pub fn uniform_stride(entry_size: usize, min_alignment: usize) -> (stride: usize)
    requires
        entry_size > 0,
        min_alignment > 0,
        entry_size + min_alignment <= usize::MAX,
    ensures
        stride >= entry_size,
        stride % min_alignment == 0,
        stride < entry_size + min_alignment,
{
    let rem = entry_size % min_alignment;
    if rem == 0 {
        proof {
            lemma_fundamental_div_mod(entry_size as int, min_alignment as int);
            lemma_mod_multiples_basic(
                entry_size as int / min_alignment as int,
                min_alignment as int,
            );
        }
        entry_size
    } else {
        let stride = entry_size + (min_alignment - rem);
        proof {
            lemma_fundamental_div_mod(entry_size as int, min_alignment as int);
            let q = entry_size as int / min_alignment as int;
            assert(stride == (q + 1) * min_alignment) by (nonlinear_arith)
                requires
                    entry_size == min_alignment * q + rem,
                    stride == entry_size + (min_alignment - rem),
            ;
            lemma_mod_multiples_basic(q + 1, min_alignment as int);
        }
        stride
    }
}

/// The byte offset of one image's uniform slot inside the shared buffer.
pub fn uniform_slot_offset(index: usize, stride: usize, min_alignment: usize) -> (offset: usize)
    requires
        min_alignment > 0,
        stride % min_alignment == 0,
        index * stride <= usize::MAX,
    ensures
        offset == index * stride,
        offset % min_alignment == 0,
{
    proof {
        lemma_fundamental_div_mod(stride as int, min_alignment as int);
        let q = stride as int / min_alignment as int;
        assert(index * stride == (index * q) * min_alignment) by (nonlinear_arith)
            requires
                stride == min_alignment * q,
        ;
        lemma_mod_multiples_basic(index as int * q, min_alignment as int);
    }
    index * stride
}

} // verus!
