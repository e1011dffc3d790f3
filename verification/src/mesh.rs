//! Greedy meshing: turns a chunk's block grid plus its six neighbors into
//! axis-aligned quads, two triangles each, written as packed vertices.
//!
//! For each axis a sweep plane walks the chunk one slab at a time, builds a
//! 2D mask of visible faces (a face is visible where exactly one of the two
//! blocks it separates is solid), and coalesces runs of equal mask entries
//! into maximal rectangles.

use vstd::prelude::*;
use vstd::arithmetic::div_mod::lemma_fundamental_div_mod;

use crate::chunk::{BlockId, ChunkBlocks};
use crate::pos::LocalBlockPos;
use crate::vertex::{vert_in_chunk, Vertex};
use crate::CHUNK_SIZE;

verus! {

/// The six neighbor chunks of the chunk being meshed, by direction. An
/// absent neighbor reads as all air, which produces faces at the chunk
/// boundary.
pub struct Neighbours<'a> {
    pub pos_x: Option<&'a ChunkBlocks>,
    pub neg_x: Option<&'a ChunkBlocks>,
    pub pos_y: Option<&'a ChunkBlocks>,
    pub neg_y: Option<&'a ChunkBlocks>,
    pub pos_z: Option<&'a ChunkBlocks>,
    pub neg_z: Option<&'a ChunkBlocks>,
}

impl<'a> Neighbours<'a> {
    pub open spec fn wf(&self) -> bool {
        &&& (self.pos_x matches Some(c) ==> c.wf())
        &&& (self.neg_x matches Some(c) ==> c.wf())
        &&& (self.pos_y matches Some(c) ==> c.wf())
        &&& (self.neg_y matches Some(c) ==> c.wf())
        &&& (self.pos_z matches Some(c) ==> c.wf())
        &&& (self.neg_z matches Some(c) ==> c.wf())
    }

    /// No neighbor on any side.
    pub fn none() -> (r: Self)
        ensures
            r.wf(),
            r.pos_x is None && r.neg_x is None && r.pos_y is None && r.neg_y is None && r.pos_z
                is None && r.neg_z is None,
    {
        Neighbours {
            pos_x: None,
            neg_x: None,
            pos_y: None,
            neg_y: None,
            pos_z: None,
            neg_z: None,
        }
    }
}

/// Whether a neighbor cell is solid; an absent neighbor is all air.
pub open spec fn nbr_solid(nbr: Option<&ChunkBlocks>, x: int, y: int, z: int) -> bool {
    match nbr {
        Some(c) => c.solid_at(x, y, z),
        None => false,
    }
}

/// Whether the probe at `(px, py, pz)` hits a solid block. A probe may step
/// at most one block outside the chunk on at most one axis; such a probe
/// reads the facing cell of the neighbor on that side.
pub open spec fn face_solid(
    blocks: &ChunkBlocks,
    nbrs: &Neighbours,
    px: int,
    py: int,
    pz: int,
) -> bool {
    if 0 <= px < CHUNK_SIZE && 0 <= py < CHUNK_SIZE && 0 <= pz < CHUNK_SIZE {
        blocks.solid_at(px, py, pz)
    } else if px >= CHUNK_SIZE {
        nbr_solid(nbrs.pos_x, 0, py, pz)
    } else if px < 0 {
        nbr_solid(nbrs.neg_x, CHUNK_SIZE - 1, py, pz)
    } else if py >= CHUNK_SIZE {
        nbr_solid(nbrs.pos_y, px, 0, pz)
    } else if py < 0 {
        nbr_solid(nbrs.neg_y, px, CHUNK_SIZE - 1, pz)
    } else if pz >= CHUNK_SIZE {
        nbr_solid(nbrs.pos_z, px, py, 0)
    } else {
        nbr_solid(nbrs.neg_z, px, py, CHUNK_SIZE - 1)
    }
}

/// The block coordinates of the sweep cell for axis `d`: the sweep
/// coordinate `s` goes on axis `d`, `iu` on axis `(d + 1) % 3`, `iv` on
/// axis `(d + 2) % 3`.
pub open spec fn axis_pos(d: int, s: int, iu: int, iv: int) -> (int, int, int) {
    if d == 0 {
        (s, iu, iv)
    } else if d == 1 {
        (iv, s, iu)
    } else {
        (iu, iv, s)
    }
}

/// Whether the face between slab `s` and slab `s + 1` of axis `d` is
/// visible at `(iu, iv)`: exactly one of its two sides is solid.
pub open spec fn face_exists_at(
    blocks: &ChunkBlocks,
    nbrs: &Neighbours,
    d: int,
    s: int,
    iu: int,
    iv: int,
) -> bool {
    let cur = axis_pos(d, s, iu, iv);
    let cmp = axis_pos(d, s + 1, iu, iv);
    face_solid(blocks, nbrs, cur.0, cur.1, cur.2) != face_solid(blocks, nbrs, cmp.0, cmp.1, cmp.2)
}

/// The mask entry for a sweep cell: 1 for an outward face (the solid block
/// sits below the sweep plane), 2 for an inward face, 0 where nothing is
/// visible.
pub open spec fn mask_value(
    blocks: &ChunkBlocks,
    nbrs: &Neighbours,
    d: int,
    s: int,
    iu: int,
    iv: int,
) -> u8 {
    let cur = axis_pos(d, s, iu, iv);
    let cmp = axis_pos(d, s + 1, iu, iv);
    let cur_solid = face_solid(blocks, nbrs, cur.0, cur.1, cur.2);
    let cmp_solid = face_solid(blocks, nbrs, cmp.0, cmp.1, cmp.2);
    if cur_solid && !cmp_solid {
        1
    } else if !cur_solid && cmp_solid {
        2
    } else {
        0
    }
}

/// Some face of the chunk, on any axis and slab, is visible.
pub open spec fn any_face(blocks: &ChunkBlocks, nbrs: &Neighbours) -> bool {
    exists|dd: int, ss: int, iu: int, iv: int|
        0 <= dd < 3 && -1 <= ss < CHUNK_SIZE && 0 <= iu < CHUNK_SIZE && 0 <= iv < CHUNK_SIZE
            && face_exists_at(blocks, nbrs, dd, ss, iu, iv)
}

/// Some face in the sweep prefix up to (excluding) slab `s` of axis `d` is
/// visible.
pub open spec fn face_before(blocks: &ChunkBlocks, nbrs: &Neighbours, d: int, s: int) -> bool {
    exists|dd: int, ss: int, iu: int, iv: int|
        0 <= dd < 3 && -1 <= ss < CHUNK_SIZE && 0 <= iu < CHUNK_SIZE && 0 <= iv < CHUNK_SIZE && (dd
            < d || (dd == d && ss < s)) && face_exists_at(blocks, nbrs, dd, ss, iu, iv)
}

/// The light modifier a face emits, by direction index
/// `{+X, -X, +Y, -Y, +Z, -Z}`; constants chosen for a shaded appearance.
pub open spec fn light_modifier_spec(dir: int) -> u32 {
    if dir == 0 || dir == 1 {
        1
    } else if dir == 2 {
        3
    } else if dir == 3 {
        0
    } else {
        2
    }
}

fn light_modifier(dir: usize) -> (r: u32)
    requires
        dir < 6,
    ensures
        r == light_modifier_spec(dir as int),
        r <= 3,
{
    match dir {
        0 => 1,
        1 => 1,
        2 => 3,
        3 => 0,
        4 => 2,
        _ => 2,
    }
}

/// The packed word of one corner point with a light modifier.
pub open spec fn pack_point(p: (u8, u8, u8), light: u32) -> u32 {
    (p.0 as u32) | (p.1 as u32) << 6 | (p.2 as u32) << 12 | light << 18
}

/// The packed word of one quad corner in the sweep frame of axis `d`: the
/// corner sits at depth `xd` on axis `d` and at `(iu, iv)` in the sweep
/// plane.
pub open spec fn quad_word(d: int, xd: int, iu: int, iv: int, light: u32) -> u32 {
    let c = axis_pos(d, xd, iu, iv);
    (c.0 as u32) | (c.1 as u32) << 6 | (c.2 as u32) << 12 | light << 18
}

/// Whether six vertices are exactly the two triangles of the rectangle
/// with corner `(iu, iv)` and extent `(w, h)` in the sweep plane of axis
/// `d` at depth `xd`, for the face orientation `m` (1 outward, 2 inward):
/// the winding order follows the face side so back-face culling keeps the
/// outward side, and all six carry that direction's light modifier.
pub open spec fn is_face_quad(
    vs: Seq<Vertex>,
    d: int,
    m: u8,
    xd: int,
    iu: int,
    iv: int,
    w: int,
    h: int,
) -> bool {
    let dir = 2 * d + m - 1;
    let light = light_modifier_spec(dir);
    let w0 = quad_word(d, xd, iu, iv, light);
    let w1 = quad_word(d, xd, iu + w, iv, light);
    let w2 = quad_word(d, xd, iu, iv + h, light);
    let w3 = quad_word(d, xd, iu + w, iv + h, light);
    &&& vs.len() == 6
    &&& if dir % 2 == 0 {
        vs[0].data == w0 && vs[1].data == w2 && vs[2].data == w1 && vs[3].data == w1 && vs[4].data
            == w2 && vs[5].data == w3
    } else {
        vs[0].data == w0 && vs[1].data == w1 && vs[2].data == w2 && vs[3].data == w1 && vs[4].data
            == w3 && vs[5].data == w2
    }
}

/// The `q`-th six-vertex quad of a vertex stream.
pub open spec fn quad_at(vs: Seq<Vertex>, q: int) -> Seq<Vertex> {
    vs.subrange(6 * q, 6 * q + 6)
}

/// One cell of a slab mask, addressed in sweep-plane coordinates.
pub open spec fn mask_cell(mask0: Seq<u8>, iu: int, iv: int) -> u8 {
    mask0[iv * CHUNK_SIZE + iu]
}

/// One emitted rectangle of a slab: its anchor corner and extent in the
/// sweep plane.
pub struct QuadRect {
    pub iu: int,
    pub iv: int,
    pub w: int,
    pub h: int,
}

/// A rectangle that lies inside the sweep plane and is not degenerate.
pub open spec fn rect_wf(r: QuadRect) -> bool {
    0 <= r.iu && 0 <= r.iv && 1 <= r.w && 1 <= r.h && r.iu + r.w <= CHUNK_SIZE && r.iv + r.h
        <= CHUNK_SIZE
}

/// Whether the rectangle covers the sweep-plane cell `(cu, cv)`.
pub open spec fn rect_covers(r: QuadRect, cu: int, cv: int) -> bool {
    r.iu <= cu < r.iu + r.w && r.iv <= cv < r.iv + r.h
}

/// Whether one of the first `t` rectangles covers the cell.
pub open spec fn covered_before(rects: Seq<QuadRect>, t: int, cu: int, cv: int) -> bool {
    exists|u: int| 0 <= u < t && u < rects.len() && rect_covers(#[trigger] rects[u], cu, cv)
}

/// What the `t`-th quad of one slab's output is: the greedy rectangle at
/// its anchor. Its cells all carried the same nonzero mask entry; its six
/// vertices are exactly the rectangle's two triangles with the matching
/// winding and light; it is as wide and as tall as the scan could make it
/// (the run ends only at the plane edge, at a different mask entry, or at
/// a cell an earlier quad already consumed); and it was anchored at the
/// first cell the row-major scan still found uncovered.
pub open spec fn slab_quad_rect_ok(
    mask0: Seq<u8>,
    d: int,
    xd: int,
    vs: Seq<Vertex>,
    q0: int,
    rects: Seq<QuadRect>,
    t: int,
) -> bool {
    let r = rects[t];
    let m = mask_cell(mask0, r.iu, r.iv);
    &&& rect_wf(r)
    &&& m != 0
    &&& (forall|cu: int, cv: int|
        #![trigger mask_cell(mask0, cu, cv)]
        rect_covers(r, cu, cv) ==> mask_cell(mask0, cu, cv) == m)
    &&& is_face_quad(quad_at(vs, q0 + t), d, m, xd, r.iu, r.iv, r.w, r.h)
    &&& (r.iu + r.w == CHUNK_SIZE || mask_cell(mask0, r.iu + r.w, r.iv) != m || covered_before(
        rects,
        t,
        r.iu + r.w,
        r.iv,
    ))
    &&& (r.iv + r.h == CHUNK_SIZE || exists|cu: int, cv: int|
        #![trigger mask_cell(mask0, cu, cv)]
        cv == r.iv + r.h && r.iu <= cu < r.iu + r.w && (mask_cell(mask0, cu, cv) != m
            || covered_before(rects, t, cu, cv)))
    &&& (forall|cu: int, cv: int|
        #![trigger mask_cell(mask0, cu, cv)]
        0 <= cu < CHUNK_SIZE && 0 <= cv < CHUNK_SIZE && (cv < r.iv || (cv == r.iv && cu < r.iu))
            && mask_cell(mask0, cu, cv) != 0 ==> covered_before(rects, t, cu, cv))
}

/// What one slab's whole output is: greedy rectangles that tile the
/// nonzero mask cells exactly — pairwise disjoint and together covering
/// every visible face of the slab.
pub open spec fn slab_tiling_ok(
    mask0: Seq<u8>,
    d: int,
    xd: int,
    vs: Seq<Vertex>,
    q0: int,
    rects: Seq<QuadRect>,
) -> bool {
    &&& (forall|t: int|
        0 <= t < rects.len() ==> #[trigger] slab_quad_rect_ok(mask0, d, xd, vs, q0, rects, t))
    &&& (forall|t1: int, t2: int, cu: int, cv: int|
        #![trigger rect_covers(rects[t1], cu, cv), rect_covers(rects[t2], cu, cv)]
        0 <= t1 < t2 < rects.len() && rect_covers(rects[t1], cu, cv) ==> !rect_covers(
            rects[t2],
            cu,
            cv,
        ))
    &&& (forall|cu: int, cv: int|
        #![trigger mask_cell(mask0, cu, cv)]
        0 <= cu < CHUNK_SIZE && 0 <= cv < CHUNK_SIZE && mask_cell(mask0, cu, cv) != 0
            ==> covered_before(rects, rects.len() as int, cu, cv))
}

/// One quad of the whole mesh, placed in its slab: axis, sweep depth and
/// rectangle.
pub struct SlabQuad {
    pub d: int,
    pub s: int,
    pub r: QuadRect,
}

/// Whether `(d1, s1)` comes strictly before `(d2, s2)` in sweep order.
pub open spec fn slab_lt(d1: int, s1: int, d2: int, s2: int) -> bool {
    d1 < d2 || (d1 == d2 && s1 < s2)
}

/// Whether one of the first `t` layout quads of slab `(dd, ss)` covers the
/// cell.
pub open spec fn covered_in_layout_before(
    layout: Seq<SlabQuad>,
    t: int,
    dd: int,
    ss: int,
    cu: int,
    cv: int,
) -> bool {
    exists|u: int|
        0 <= u < t && u < layout.len() && (#[trigger] layout[u]).d == dd && layout[u].s == ss
            && rect_covers(layout[u].r, cu, cv)
}

/// What the `t`-th quad of the mesh is, in terms of the visible faces of
/// its slab: the greedy rectangle over faces of one orientation, emitted
/// with the exact corner words, winding and light of that direction.
pub open spec fn mesh_quad_ok(
    blocks: &ChunkBlocks,
    nbrs: &Neighbours,
    vs: Seq<Vertex>,
    layout: Seq<SlabQuad>,
    t: int,
) -> bool {
    let sq = layout[t];
    let r = sq.r;
    let m = mask_value(blocks, nbrs, sq.d, sq.s, r.iu, r.iv);
    &&& 0 <= sq.d < 3
    &&& -1 <= sq.s < CHUNK_SIZE
    &&& rect_wf(r)
    &&& m != 0
    &&& (forall|cu: int, cv: int|
        rect_covers(r, cu, cv) ==> #[trigger] mask_value(blocks, nbrs, sq.d, sq.s, cu, cv) == m)
    &&& is_face_quad(quad_at(vs, t), sq.d, m, sq.s + 1, r.iu, r.iv, r.w, r.h)
    &&& (r.iu + r.w == CHUNK_SIZE || mask_value(blocks, nbrs, sq.d, sq.s, r.iu + r.w, r.iv) != m
        || covered_in_layout_before(layout, t, sq.d, sq.s, r.iu + r.w, r.iv))
    &&& (r.iv + r.h == CHUNK_SIZE || exists|cu: int, cv: int|
        cv == r.iv + r.h && r.iu <= cu < r.iu + r.w && (#[trigger] mask_value(
            blocks,
            nbrs,
            sq.d,
            sq.s,
            cu,
            cv,
        ) != m || covered_in_layout_before(layout, t, sq.d, sq.s, cu, cv)))
    &&& (forall|cu: int, cv: int|
        0 <= cu < CHUNK_SIZE && 0 <= cv < CHUNK_SIZE && (cv < r.iv || (cv == r.iv && cu < r.iu))
            && #[trigger] mask_value(blocks, nbrs, sq.d, sq.s, cu, cv) != 0
            ==> covered_in_layout_before(layout, t, sq.d, sq.s, cu, cv))
}

/// What the whole mesh is, up to sweep position `(d, s)`: one quad list in
/// sweep order whose rectangles are the greedy tiling of every slab before
/// `(d, s)` — pairwise disjoint within a slab and together covering every
/// visible face, each quad maximal in the scan order. With `(3, -1)` this
/// describes the finished mesh: the quads tile the visible faces of the
/// chunk exactly.
pub open spec fn layout_wf_upto(
    blocks: &ChunkBlocks,
    nbrs: &Neighbours,
    vs: Seq<Vertex>,
    layout: Seq<SlabQuad>,
    d: int,
    s: int,
) -> bool {
    &&& layout.len() * 6 == vs.len()
    &&& (forall|t: int| 0 <= t < layout.len() ==> #[trigger] mesh_quad_ok(blocks, nbrs, vs, layout, t))
    &&& (forall|t: int|
        0 <= t < layout.len() ==> slab_lt((#[trigger] layout[t]).d, layout[t].s, d, s))
    &&& (forall|t1: int, t2: int|
        0 <= t1 < t2 < layout.len() ==> !slab_lt(
            (#[trigger] layout[t2]).d,
            layout[t2].s,
            (#[trigger] layout[t1]).d,
            layout[t1].s,
        ))
    &&& (forall|t1: int, t2: int, cu: int, cv: int|
        #![trigger rect_covers(layout[t1].r, cu, cv), rect_covers(layout[t2].r, cu, cv)]
        0 <= t1 < t2 < layout.len() && layout[t1].d == layout[t2].d && layout[t1].s == layout[t2].s
            && rect_covers(layout[t1].r, cu, cv) ==> !rect_covers(layout[t2].r, cu, cv))
    &&& (forall|dd: int, ss: int, cu: int, cv: int|
        0 <= dd < 3 && -1 <= ss < CHUNK_SIZE && 0 <= cu < CHUNK_SIZE && 0 <= cv < CHUNK_SIZE
            && slab_lt(dd, ss, d, s) && #[trigger] face_exists_at(blocks, nbrs, dd, ss, cu, cv)
            ==> covered_in_layout_before(layout, layout.len() as int, dd, ss, cu, cv))
}

/// The rectangles of one slab, tagged with their slab.
pub open spec fn tag_rects(rects: Seq<QuadRect>, d: int, s: int) -> Seq<SlabQuad> {
    rects.map(|t: int, r: QuadRect| SlabQuad { d, s, r })
}

/// Extending the layout after position `t` does not change which of the
/// first `t` quads of a slab cover a cell.
proof fn lemma_cil_prefix(
    layout0: Seq<SlabQuad>,
    layout1: Seq<SlabQuad>,
    t: int,
    dd: int,
    ss: int,
    cu: int,
    cv: int,
)
    requires
        0 <= t <= layout0.len(),
        layout0.len() <= layout1.len(),
        forall|u: int| 0 <= u < layout0.len() ==> layout1[u] == layout0[u],
    ensures
        covered_in_layout_before(layout1, t, dd, ss, cu, cv) == covered_in_layout_before(
            layout0,
            t,
            dd,
            ss,
            cu,
            cv,
        ),
{
    if covered_in_layout_before(layout1, t, dd, ss, cu, cv) {
        let u = choose|u: int|
            0 <= u < t && u < layout1.len() && (#[trigger] layout1[u]).d == dd && layout1[u].s == ss
                && rect_covers(layout1[u].r, cu, cv);
        assert(layout0[u] == layout1[u]);
        assert(covered_in_layout_before(layout0, t, dd, ss, cu, cv));
    }
    if covered_in_layout_before(layout0, t, dd, ss, cu, cv) {
        let u = choose|u: int|
            0 <= u < t && u < layout0.len() && (#[trigger] layout0[u]).d == dd && layout0[u].s == ss
                && rect_covers(layout0[u].r, cu, cv);
        assert(layout1[u] == layout0[u]);
        assert(covered_in_layout_before(layout1, t, dd, ss, cu, cv));
    }
}

/// An already placed mesh quad keeps its description when the buffer only
/// grows and further quads are appended after it.
proof fn lemma_mesh_quad_extend(
    blocks: &ChunkBlocks,
    nbrs: &Neighbours,
    vs0: Seq<Vertex>,
    vs1: Seq<Vertex>,
    layout0: Seq<SlabQuad>,
    layout1: Seq<SlabQuad>,
    t: int,
)
    requires
        0 <= t < layout0.len(),
        mesh_quad_ok(blocks, nbrs, vs0, layout0, t),
        6 * t + 6 <= vs0.len(),
        vs0.len() <= vs1.len(),
        forall|k: int| 0 <= k < vs0.len() ==> vs1[k] == vs0[k],
        layout0.len() <= layout1.len(),
        forall|u: int| 0 <= u < layout0.len() ==> layout1[u] == layout0[u],
    ensures
        mesh_quad_ok(blocks, nbrs, vs1, layout1, t),
{
    let sq = layout0[t];
    let r = sq.r;
    let m = mask_value(blocks, nbrs, sq.d, sq.s, r.iu, r.iv);
    assert(layout1[t] == layout0[t]);
    lemma_quad_at_preserved(vs0, vs1, t);
    lemma_cil_prefix(layout0, layout1, t, sq.d, sq.s, r.iu + r.w, r.iv);
    if r.iv + r.h != CHUNK_SIZE {
        let (cu, cv): (int, int) = choose|cu: int, cv: int|
            cv == r.iv + r.h && r.iu <= cu < r.iu + r.w && (#[trigger] mask_value(
                blocks,
                nbrs,
                sq.d,
                sq.s,
                cu,
                cv,
            ) != m || covered_in_layout_before(layout0, t, sq.d, sq.s, cu, cv));
        lemma_cil_prefix(layout0, layout1, t, sq.d, sq.s, cu, cv);
        assert(cv == r.iv + r.h && r.iu <= cu < r.iu + r.w && (mask_value(
            blocks,
            nbrs,
            sq.d,
            sq.s,
            cu,
            cv,
        ) != m || covered_in_layout_before(layout1, t, sq.d, sq.s, cu, cv)));
    }
    assert forall|cu: int, cv: int|
        0 <= cu < CHUNK_SIZE && 0 <= cv < CHUNK_SIZE && (cv < r.iv || (cv == r.iv && cu < r.iu))
            && #[trigger] mask_value(blocks, nbrs, sq.d, sq.s, cu, cv) != 0
        implies covered_in_layout_before(layout1, t, sq.d, sq.s, cu, cv) by {
        lemma_cil_prefix(layout0, layout1, t, sq.d, sq.s, cu, cv);
    }
}

/// Folding one slab's greedy tiling into the mesh layout: the layout that
/// was correct up to this slab, extended by the slab's rectangles, is
/// correct up to the next slab. The slab's mask entries are translated to
/// the faces the mask was built from.
#[verifier::rlimit(100)]
proof fn lemma_extend_layout(
    blocks: &ChunkBlocks,
    nbrs: &Neighbours,
    vs0: Seq<Vertex>,
    vs1: Seq<Vertex>,
    layout0: Seq<SlabQuad>,
    layout1: Seq<SlabQuad>,
    rects: Seq<QuadRect>,
    d: int,
    s: int,
    mask_pre: Seq<u8>,
)
    requires
        0 <= d < 3,
        -1 <= s < CHUNK_SIZE,
        layout_wf_upto(blocks, nbrs, vs0, layout0, d, s),
        vs0.len() % 6 == 0,
        vs0.len() <= vs1.len(),
        forall|k: int| 0 <= k < vs0.len() ==> vs1[k] == vs0[k],
        rects.len() * 6 == vs1.len() - vs0.len(),
        slab_tiling_ok(mask_pre, d, s + 1, vs1, vs0.len() as int / 6, rects),
        mask_pre.len() == CHUNK_SIZE * CHUNK_SIZE,
        forall|iu: int, iv: int|
            0 <= iu < CHUNK_SIZE && 0 <= iv < CHUNK_SIZE ==> mask_pre[iv * CHUNK_SIZE + iu]
                == mask_value(blocks, nbrs, d, s, iu, iv),
        layout1 == layout0 + tag_rects(rects, d, s),
    ensures
        layout_wf_upto(blocks, nbrs, vs1, layout1, d, s + 1),
{
    let n0 = layout0.len() as int;
    let q0 = vs0.len() as int / 6;
    assert(q0 == n0);
    assert(layout1.len() == n0 + rects.len());
    assert forall|u: int| 0 <= u < n0 implies layout1[u] == layout0[u] by {}
    assert forall|u: int| 0 <= u < rects.len() implies layout1[n0 + u] == (SlabQuad {
        d,
        s,
        r: rects[u],
    }) by {
        assert(tag_rects(rects, d, s)[u] == SlabQuad { d, s, r: rects[u] });
    }
    // every old quad keeps its description
    assert forall|t: int| 0 <= t < n0 implies #[trigger] mesh_quad_ok(
        blocks,
        nbrs,
        vs1,
        layout1,
        t,
    ) by {
        lemma_mesh_quad_extend(blocks, nbrs, vs0, vs1, layout0, layout1, t);
    }
    // every new quad is its slab rectangle, read through the mask
    assert forall|t: int| n0 <= t < layout1.len() implies #[trigger] mesh_quad_ok(
        blocks,
        nbrs,
        vs1,
        layout1,
        t,
    ) by {
        let tl = t - n0;
        assert(slab_quad_rect_ok(mask_pre, d, s + 1, vs1, q0, rects, tl));
        let r = rects[tl];
        let m = mask_cell(mask_pre, r.iu, r.iv);
        assert(layout1[t] == SlabQuad { d, s, r });
        assert(mask_value(blocks, nbrs, d, s, r.iu, r.iv) == m);
        assert forall|cu: int, cv: int| rect_covers(r, cu, cv) implies #[trigger] mask_value(
            blocks,
            nbrs,
            d,
            s,
            cu,
            cv,
        ) == m by {
            assert(mask_cell(mask_pre, cu, cv) == m);
        }
        assert(quad_at(vs1, q0 + tl) == quad_at(vs1, t));
        // width maximality
        if r.iu + r.w != CHUNK_SIZE {
            if mask_cell(mask_pre, r.iu + r.w, r.iv) != m {
                assert(mask_value(blocks, nbrs, d, s, r.iu + r.w, r.iv) != m);
            } else {
                assert(covered_before(rects, tl, r.iu + r.w, r.iv));
                let u = choose|u: int|
                    0 <= u < tl && u < rects.len() && rect_covers(
                        #[trigger] rects[u],
                        r.iu + r.w,
                        r.iv,
                    );
                assert(layout1[n0 + u] == SlabQuad { d, s, r: rects[u] });
                assert(covered_in_layout_before(layout1, t, d, s, r.iu + r.w, r.iv));
            }
        }
        // height maximality
        if r.iv + r.h != CHUNK_SIZE {
            let (scu, scv): (int, int) = choose|cu: int, cv: int|
                cv == r.iv + r.h && r.iu <= cu < r.iu + r.w && (#[trigger] mask_cell(
                    mask_pre,
                    cu,
                    cv,
                ) != m || covered_before(rects, tl, cu, cv));
            if mask_cell(mask_pre, scu, scv) != m {
                assert(mask_value(blocks, nbrs, d, s, scu, scv) != m);
            } else {
                assert(covered_before(rects, tl, scu, scv));
                let u = choose|u: int|
                    0 <= u < tl && u < rects.len() && rect_covers(#[trigger] rects[u], scu, scv);
                assert(layout1[n0 + u] == SlabQuad { d, s, r: rects[u] });
                assert(covered_in_layout_before(layout1, t, d, s, scu, scv));
            }
            assert(scv == r.iv + r.h && r.iu <= scu < r.iu + r.w && (mask_value(
                blocks,
                nbrs,
                d,
                s,
                scu,
                scv,
            ) != m || covered_in_layout_before(layout1, t, d, s, scu, scv)));
        }
        // everything before the anchor was already tiled
        assert forall|cu: int, cv: int|
            0 <= cu < CHUNK_SIZE && 0 <= cv < CHUNK_SIZE && (cv < r.iv || (cv == r.iv && cu < r.iu))
                && #[trigger] mask_value(blocks, nbrs, d, s, cu, cv) != 0
            implies covered_in_layout_before(layout1, t, d, s, cu, cv) by {
            assert(mask_cell(mask_pre, cu, cv) != 0);
            assert(covered_before(rects, tl, cu, cv));
            let u = choose|u: int|
                0 <= u < tl && u < rects.len() && rect_covers(#[trigger] rects[u], cu, cv);
            assert(layout1[n0 + u] == SlabQuad { d, s, r: rects[u] });
        }
    }
    // the layout stays in sweep order, strictly before the next position
    assert forall|t: int| 0 <= t < layout1.len() implies slab_lt(
        (#[trigger] layout1[t]).d,
        layout1[t].s,
        d,
        s + 1,
    ) by {
        if t < n0 {
            assert(slab_lt(layout0[t].d, layout0[t].s, d, s));
        } else {
            assert(layout1[t] == SlabQuad { d, s, r: rects[t - n0] });
        }
    }
    assert forall|t1: int, t2: int| 0 <= t1 < t2 < layout1.len() implies !slab_lt(
        (#[trigger] layout1[t2]).d,
        layout1[t2].s,
        (#[trigger] layout1[t1]).d,
        layout1[t1].s,
    ) by {
        if t2 < n0 {
        } else if t1 < n0 {
            assert(slab_lt(layout0[t1].d, layout0[t1].s, d, s));
            assert(layout1[t2] == SlabQuad { d, s, r: rects[t2 - n0] });
        } else {
            assert(layout1[t1] == SlabQuad { d, s, r: rects[t1 - n0] });
            assert(layout1[t2] == SlabQuad { d, s, r: rects[t2 - n0] });
        }
    }
    // rectangles of one slab never overlap
    assert forall|t1: int, t2: int, cu: int, cv: int|
        #![trigger rect_covers(layout1[t1].r, cu, cv), rect_covers(layout1[t2].r, cu, cv)]
        0 <= t1 < t2 < layout1.len() && layout1[t1].d == layout1[t2].d && layout1[t1].s
            == layout1[t2].s && rect_covers(layout1[t1].r, cu, cv)
        implies !rect_covers(layout1[t2].r, cu, cv) by {
        if t2 < n0 {
        } else if t1 < n0 {
            // an old quad lies in an earlier slab than any new one
            assert(slab_lt(layout0[t1].d, layout0[t1].s, d, s));
            assert(layout1[t2] == SlabQuad { d, s, r: rects[t2 - n0] });
        } else {
            assert(layout1[t1] == SlabQuad { d, s, r: rects[t1 - n0] });
            assert(layout1[t2] == SlabQuad { d, s, r: rects[t2 - n0] });
            if rect_covers(rects[t1 - n0], cu, cv) {
                assert(!rect_covers(rects[t2 - n0], cu, cv));
            }
        }
    }
    // every visible face of every slab up to and including this one is
    // covered
    assert forall|dd: int, ss: int, cu: int, cv: int|
        0 <= dd < 3 && -1 <= ss < CHUNK_SIZE && 0 <= cu < CHUNK_SIZE && 0 <= cv < CHUNK_SIZE
            && slab_lt(dd, ss, d, s + 1) && #[trigger] face_exists_at(blocks, nbrs, dd, ss, cu, cv)
        implies covered_in_layout_before(layout1, layout1.len() as int, dd, ss, cu, cv) by {
        if slab_lt(dd, ss, d, s) {
            assert(covered_in_layout_before(layout0, n0, dd, ss, cu, cv));
            let u = choose|u: int|
                0 <= u < n0 && u < layout0.len() && (#[trigger] layout0[u]).d == dd && layout0[u].s
                    == ss && rect_covers(layout0[u].r, cu, cv);
            assert(layout1[u] == layout0[u]);
            assert(covered_in_layout_before(layout1, layout1.len() as int, dd, ss, cu, cv));
        } else {
            assert(dd == d && ss == s);
            assert(mask_value(blocks, nbrs, d, s, cu, cv) != 0);
            assert(mask_cell(mask_pre, cu, cv) != 0);
            assert(covered_before(rects, rects.len() as int, cu, cv));
            let u = choose|u: int|
                0 <= u < rects.len() && u < rects.len() && rect_covers(#[trigger] rects[u], cu, cv);
            assert(layout1[n0 + u] == SlabQuad { d, s, r: rects[u] });
            assert(covered_in_layout_before(layout1, layout1.len() as int, dd, ss, cu, cv));
        }
    }
}

/// A push-only extension keeps every already emitted quad intact./// A push-only extension keeps every already emitted quad intact.
proof fn lemma_quad_at_preserved(v0: Seq<Vertex>, v1: Seq<Vertex>, q: int)
    requires
        0 <= q,
        6 * q + 6 <= v0.len(),
        v0.len() <= v1.len(),
        forall|k: int| 0 <= k < v0.len() ==> v1[k] == v0[k],
    ensures
        quad_at(v1, q) == quad_at(v0, q),
{
    assert(quad_at(v1, q) =~= quad_at(v0, q));
}

/// Appending a rectangle does not change which of the first `t` cover a
/// cell.
proof fn lemma_covered_before_push(rects: Seq<QuadRect>, nr: QuadRect, t: int, cu: int, cv: int)
    requires
        0 <= t <= rects.len(),
    ensures
        covered_before(rects.push(nr), t, cu, cv) == covered_before(rects, t, cu, cv),
{
    if covered_before(rects.push(nr), t, cu, cv) {
        let u = choose|u: int|
            0 <= u < t && u < rects.push(nr).len() && rect_covers(
                #[trigger] rects.push(nr)[u],
                cu,
                cv,
            );
        assert(rects.push(nr)[u] == rects[u]);
        assert(rect_covers(rects[u], cu, cv));
    }
    if covered_before(rects, t, cu, cv) {
        let u = choose|u: int|
            0 <= u < t && u < rects.len() && rect_covers(#[trigger] rects[u], cu, cv);
        assert(rects.push(nr)[u] == rects[u]);
        assert(rect_covers(rects.push(nr)[u], cu, cv));
    }
}

/// An already emitted slab quad keeps its description when the buffer only
/// grows and one more rectangle is appended after it.
proof fn lemma_slab_quad_push(
    mask0: Seq<u8>,
    d: int,
    xd: int,
    vs0: Seq<Vertex>,
    vs1: Seq<Vertex>,
    q0: int,
    rects: Seq<QuadRect>,
    nr: QuadRect,
    t: int,
)
    requires
        0 <= t < rects.len(),
        slab_quad_rect_ok(mask0, d, xd, vs0, q0, rects, t),
        0 <= q0,
        6 * (q0 + t) + 6 <= vs0.len(),
        vs0.len() <= vs1.len(),
        forall|k: int| 0 <= k < vs0.len() ==> vs1[k] == vs0[k],
    ensures
        slab_quad_rect_ok(mask0, d, xd, vs1, q0, rects.push(nr), t),
{
    let rects2 = rects.push(nr);
    assert(rects2[t] == rects[t]);
    let r = rects[t];
    let m = mask_cell(mask0, r.iu, r.iv);
    lemma_quad_at_preserved(vs0, vs1, q0 + t);
    lemma_covered_before_push(rects, nr, t, r.iu + r.w, r.iv);
    if r.iv + r.h != CHUNK_SIZE {
        assert(exists|cu: int, cv: int|
            cv == r.iv + r.h && r.iu <= cu < r.iu + r.w && (#[trigger] mask_cell(mask0, cu, cv)
                != m || covered_before(rects, t, cu, cv)));
        let (cu, cv): (int, int) = choose|cu: int, cv: int|
            cv == r.iv + r.h && r.iu <= cu < r.iu + r.w && (#[trigger] mask_cell(mask0, cu, cv)
                != m || covered_before(rects, t, cu, cv));
        lemma_covered_before_push(rects, nr, t, cu, cv);
        assert(cv == r.iv + r.h && r.iu <= cu < r.iu + r.w && (mask_cell(mask0, cu, cv) != m
            || covered_before(rects2, t, cu, cv)));
        assert(exists|cu2: int, cv2: int|
            cv2 == r.iv + r.h && r.iu <= cu2 < r.iu + r.w && (#[trigger] mask_cell(mask0, cu2, cv2)
                != m || covered_before(rects2, t, cu2, cv2)));
    }
    assert forall|cu: int, cv: int|
        #![trigger mask_cell(mask0, cu, cv)]
        0 <= cu < CHUNK_SIZE && 0 <= cv < CHUNK_SIZE && (cv < r.iv || (cv == r.iv && cu < r.iu))
            && mask_cell(mask0, cu, cv) != 0 implies covered_before(rects2, t, cu, cv) by {
        lemma_covered_before_push(rects, nr, t, cu, cv);
    }
    assert(rect_wf(rects2[t]));
    assert(mask_cell(mask0, rects2[t].iu, rects2[t].iv) != 0);
    assert forall|cu: int, cv: int|
        #![trigger mask_cell(mask0, cu, cv)]
        rect_covers(rects2[t], cu, cv) implies mask_cell(mask0, cu, cv) == m by {}
    assert(is_face_quad(quad_at(vs1, q0 + t), d, m, xd, r.iu, r.iv, r.w, r.h));
    assert(r.iu + r.w == CHUNK_SIZE || mask_cell(mask0, r.iu + r.w, r.iv) != m || covered_before(
        rects2,
        t,
        r.iu + r.w,
        r.iv,
    ));
    assert(r.iv + r.h == CHUNK_SIZE || exists|cu: int, cv: int|
        #![trigger mask_cell(mask0, cu, cv)]
        cv == r.iv + r.h && r.iu <= cu < r.iu + r.w && (mask_cell(mask0, cu, cv) != m
            || covered_before(rects2, t, cu, cv)));
}

/// Probes whether the block at `bp + ad` exists, reading a neighbor where
/// the probe steps just outside the chunk.
fn block_exist(blocks: &ChunkBlocks, nbrs: &Neighbours, bp: [i8; 3], ad: [i8; 3]) -> (r: bool)
    requires
        blocks.wf(),
        nbrs.wf(),
        forall|k: int| 0 <= k < 3 ==> 0 <= #[trigger] ad@[k] <= 1,
        forall|k: int| 0 <= k < 3 ==> -1 <= #[trigger] bp@[k] + ad@[k] <= CHUNK_SIZE,
        !(0 <= bp@[0] + ad@[0] < CHUNK_SIZE) ==> 0 <= bp@[1] < CHUNK_SIZE && 0 <= bp@[2]
            < CHUNK_SIZE && ad@[1] == 0 && ad@[2] == 0,
        !(0 <= bp@[1] + ad@[1] < CHUNK_SIZE) ==> 0 <= bp@[0] < CHUNK_SIZE && 0 <= bp@[2]
            < CHUNK_SIZE && ad@[0] == 0 && ad@[2] == 0,
        !(0 <= bp@[2] + ad@[2] < CHUNK_SIZE) ==> 0 <= bp@[0] < CHUNK_SIZE && 0 <= bp@[1]
            < CHUNK_SIZE && ad@[0] == 0 && ad@[1] == 0,
    ensures
        r == face_solid(blocks, nbrs, bp@[0] + ad@[0], bp@[1] + ad@[1], bp@[2] + ad@[2]),
{
    let px = bp[0] + ad[0];
    let py = bp[1] + ad[1];
    let pz = bp[2] + ad[2];
    if 0 <= px && px < CHUNK_SIZE as i8 && 0 <= py && py < CHUNK_SIZE as i8 && 0 <= pz && pz
        < CHUNK_SIZE as i8 {
        let pos = LocalBlockPos::new(px as u8, py as u8, pz as u8);
        blocks.get(pos) != BlockId::Air
    } else {
        let (nbr, pos) = if px >= CHUNK_SIZE as i8 {
            (&nbrs.pos_x, LocalBlockPos::new(0, bp[1] as u8, bp[2] as u8))
        } else if px < 0 {
            (&nbrs.neg_x, LocalBlockPos::new(CHUNK_SIZE as u8 - 1, bp[1] as u8, bp[2] as u8))
        } else if py >= CHUNK_SIZE as i8 {
            (&nbrs.pos_y, LocalBlockPos::new(bp[0] as u8, 0, bp[2] as u8))
        } else if py < 0 {
            (&nbrs.neg_y, LocalBlockPos::new(bp[0] as u8, CHUNK_SIZE as u8 - 1, bp[2] as u8))
        } else if pz >= CHUNK_SIZE as i8 {
            (&nbrs.pos_z, LocalBlockPos::new(bp[0] as u8, bp[1] as u8, 0))
        } else {
            (&nbrs.neg_z, LocalBlockPos::new(bp[0] as u8, bp[1] as u8, CHUNK_SIZE as u8 - 1))
        };
        match nbr {
            Some(chunk) => chunk.get(pos) != BlockId::Air,
            None => false,
        }
    }
}

/// Appends one quad, six vertices in two triangles, with the winding order
/// that keeps the outward side visible under back-face culling.
fn append_quad(buff: &mut Vec<Vertex>, points: [(u8, u8, u8); 4], dir: usize)
    requires
        dir < 6,
        forall|k: int|
            0 <= k < 4 ==> #[trigger] points@[k].0 <= CHUNK_SIZE && points@[k].1 <= CHUNK_SIZE
                && points@[k].2 <= CHUNK_SIZE,
    ensures
        final(buff)@.len() == old(buff)@.len() + 6,
        forall|k: int| 0 <= k < old(buff)@.len() ==> final(buff)@[k] == old(buff)@[k],
        forall|k: int|
            old(buff)@.len() <= k < final(buff)@.len() ==> vert_in_chunk(
                #[trigger] final(buff)@[k].data,
            ) && crate::vertex::vert_light(final(buff)@[k].data) == light_modifier_spec(dir as int),
        ({
            // the six words are exactly the two triangles over the four
            // given corners, in the winding order of the face side
            let light = light_modifier_spec(dir as int);
            let w0 = pack_point(points@[0], light);
            let w1 = pack_point(points@[1], light);
            let w2 = pack_point(points@[2], light);
            let w3 = pack_point(points@[3], light);
            let n = old(buff)@.len() as int;
            if dir % 2 == 0 {
                final(buff)@[n].data == w0 && final(buff)@[n + 1].data == w2 && final(buff)@[n
                    + 2].data == w1 && final(buff)@[n + 3].data == w1 && final(buff)@[n + 4].data
                    == w2 && final(buff)@[n + 5].data == w3
            } else {
                final(buff)@[n].data == w0 && final(buff)@[n + 1].data == w1 && final(buff)@[n
                    + 2].data == w2 && final(buff)@[n + 3].data == w1 && final(buff)@[n + 4].data
                    == w3 && final(buff)@[n + 5].data == w2
            }
        }),
{
    let light = light_modifier(dir);
    let v0 = Vertex::pack(points[0].0 as u32, points[0].1 as u32, points[0].2 as u32, light);
    let v1 = Vertex::pack(points[1].0 as u32, points[1].1 as u32, points[1].2 as u32, light);
    let v2 = Vertex::pack(points[2].0 as u32, points[2].1 as u32, points[2].2 as u32, light);
    let v3 = Vertex::pack(points[3].0 as u32, points[3].1 as u32, points[3].2 as u32, light);

    if dir % 2 == 0 {
        buff.push(v0);
        buff.push(v2);
        buff.push(v1);
        buff.push(v1);
        buff.push(v2);
        buff.push(v3);
    } else {
        buff.push(v0);
        buff.push(v1);
        buff.push(v2);
        buff.push(v1);
        buff.push(v3);
        buff.push(v2);
    }
}

/// Distinct in-range mask cells have distinct flat indices.
proof fn lemma_flat_index_injective(u1: int, v1: int, u2: int, v2: int)
    requires
        0 <= u1 < CHUNK_SIZE,
        0 <= v1 < CHUNK_SIZE,
        0 <= u2 < CHUNK_SIZE,
        0 <= v2 < CHUNK_SIZE,
        v1 * CHUNK_SIZE + u1 == v2 * CHUNK_SIZE + u2,
    ensures
        u1 == u2 && v1 == v2,
{
    assert(u1 == u2 && v1 == v2) by (nonlinear_arith)
        requires
            0 <= u1 < 32 && 0 <= v1 < 32 && 0 <= u2 < 32 && 0 <= v2 < 32,
            v1 * 32 + u1 == v2 * 32 + u2,
    ;
}

/// Builds the visibility mask for one slab of axis `d`: entry
/// `iv * CHUNK_SIZE + iu` describes the face at `(iu, iv)` between slabs
/// `s` and `s + 1`.
fn build_mask(blocks: &ChunkBlocks, nbrs: &Neighbours, d: usize, s: i8) -> (mask: Vec<u8>)
    requires
        blocks.wf(),
        nbrs.wf(),
        d < 3,
        -1 <= s < CHUNK_SIZE,
    ensures
        mask@.len() == CHUNK_SIZE * CHUNK_SIZE,
        forall|iu: int, iv: int|
            0 <= iu < CHUNK_SIZE && 0 <= iv < CHUNK_SIZE ==> mask@[iv * CHUNK_SIZE + iu]
                == mask_value(blocks, nbrs, d as int, s as int, iu, iv),
        forall|n: int| 0 <= n < mask@.len() ==> #[trigger] mask@[n] <= 2,
{
    let u = (d + 1) % 3;
    let v = (d + 2) % 3;
    let mut mask: Vec<u8> = vec![0u8; CHUNK_SIZE * CHUNK_SIZE];
    let mut iv: usize = 0;
    while iv < CHUNK_SIZE
        invariant
            blocks.wf(),
            nbrs.wf(),
            d < 3,
            u == (d + 1) % 3,
            v == (d + 2) % 3,
            -1 <= s < CHUNK_SIZE,
            0 <= iv <= CHUNK_SIZE,
            mask@.len() == CHUNK_SIZE * CHUNK_SIZE,
            forall|pu: int, pv: int|
                0 <= pu < CHUNK_SIZE && 0 <= pv < iv ==> mask@[pv * CHUNK_SIZE + pu] == mask_value(
                    blocks,
                    nbrs,
                    d as int,
                    s as int,
                    pu,
                    pv,
                ),
            forall|n: int| 0 <= n < mask@.len() ==> #[trigger] mask@[n] <= 2,
        decreases CHUNK_SIZE - iv,
    {
        let mut iu: usize = 0;
        while iu < CHUNK_SIZE
            invariant
                blocks.wf(),
                nbrs.wf(),
                d < 3,
                u == (d + 1) % 3,
                v == (d + 2) % 3,
                -1 <= s < CHUNK_SIZE,
                0 <= iv < CHUNK_SIZE,
                0 <= iu <= CHUNK_SIZE,
                mask@.len() == CHUNK_SIZE * CHUNK_SIZE,
                forall|pu: int, pv: int|
                    0 <= pu < CHUNK_SIZE && 0 <= pv < CHUNK_SIZE && (pv < iv || (pv == iv && pu
                        < iu)) ==> mask@[pv * CHUNK_SIZE + pu] == mask_value(
                        blocks,
                        nbrs,
                        d as int,
                        s as int,
                        pu,
                        pv,
                    ),
                forall|n: int| 0 <= n < mask@.len() ==> #[trigger] mask@[n] <= 2,
            decreases CHUNK_SIZE - iu,
        {
            let mut x: [i8; 3] = [0; 3];
            let mut q: [i8; 3] = [0; 3];
            x[d] = s;
            x[u] = iu as i8;
            x[v] = iv as i8;
            q[d] = 1;
            let cur = block_exist(blocks, nbrs, x, [0; 3]);
            let cmp = block_exist(blocks, nbrs, x, q);
            let m: u8 = match (cur, cmp) {
                (true, false) => 1,
                (false, true) => 2,
                _ => 0,
            };
            proof {
                assert((x@[0] as int, x@[1] as int, x@[2] as int) == axis_pos(
                    d as int,
                    s as int,
                    iu as int,
                    iv as int,
                ));
                assert((x@[0] + q@[0], x@[1] + q@[1], x@[2] + q@[2]) == axis_pos(
                    d as int,
                    s as int + 1,
                    iu as int,
                    iv as int,
                ));
                assert(m == mask_value(blocks, nbrs, d as int, s as int, iu as int, iv as int));
            }
            let ghost prev = mask@;
            mask[iv * CHUNK_SIZE + iu] = m;
            proof {
                assert forall|pu: int, pv: int|
                    0 <= pu < CHUNK_SIZE && 0 <= pv < CHUNK_SIZE && (pv < iv || (pv == iv && pu < iu
                        + 1)) implies mask@[pv * CHUNK_SIZE + pu] == mask_value(
                    blocks,
                    nbrs,
                    d as int,
                    s as int,
                    pu,
                    pv,
                ) by {
                    if pv * CHUNK_SIZE + pu != iv * CHUNK_SIZE + iu {
                        assert(mask@[pv * CHUNK_SIZE + pu] == prev[pv * CHUNK_SIZE + pu]);
                    } else {
                        lemma_flat_index_injective(pu, pv, iu as int, iv as int);
                    }
                }
            }
            iu = iu + 1;
        }
        iv = iv + 1;
    }
    mask
}

/// Scans the run and rectangle of equal entries starting at cell
/// `(i, j)`: the widest run of `m` along the row, then the tallest block
/// of full matching rows. Stops exactly at the plane edge or at the first
/// differing entry.
fn scan_rect(mask: &Vec<u8>, i: usize, j: usize, n: usize, m: u8) -> (r: (usize, usize))
    requires
        mask@.len() == CHUNK_SIZE * CHUNK_SIZE,
        i < CHUNK_SIZE,
        j < CHUNK_SIZE,
        n == j * CHUNK_SIZE + i,
        m == mask@[n as int],
        m != 0,
    ensures
        1 <= r.0 <= CHUNK_SIZE - i,
        1 <= r.1 <= CHUNK_SIZE - j,
        forall|cu: int, cv: int|
            i <= cu < i + r.0 && j <= cv < j + r.1 ==> #[trigger] mask_cell(mask@, cu, cv) == m,
        i + r.0 == CHUNK_SIZE || mask_cell(mask@, i + r.0, j as int) != m,
        j + r.1 == CHUNK_SIZE || exists|cu: int, cv: int|
            cv == j + r.1 && i <= cu < i + r.0 && #[trigger] mask_cell(mask@, cu, cv) != m,
{
    let ghost jj = j as int;
    let ghost ii = i as int;
    let mut w: usize = 1;
    while i + w < CHUNK_SIZE && mask[n + w] == m
        invariant
            0 <= j < CHUNK_SIZE,
            0 <= i < CHUNK_SIZE,
            jj == j as int,
            ii == i as int,
            n == j * CHUNK_SIZE + i,
            1 <= w <= CHUNK_SIZE - i,
            mask@.len() == CHUNK_SIZE * CHUNK_SIZE,
            m == mask@[n as int],
            forall|cu: int| ii <= cu < ii + w ==> mask_cell(mask@, cu, jj) == m,
        decreases CHUNK_SIZE - i - w,
    {
        w = w + 1;
        proof {
            assert(mask_cell(mask@, ii + (w - 1), jj) == m);
        }
    }
    proof {
        if i + w < CHUNK_SIZE {
            assert(mask_cell(mask@, ii + w, jj) != m);
        }
    }
    let mut h: usize = 1;
    let mut grow = true;
    while grow && j + h < CHUNK_SIZE
        invariant
            0 <= j < CHUNK_SIZE,
            0 <= i < CHUNK_SIZE,
            jj == j as int,
            ii == i as int,
            n == j * CHUNK_SIZE + i,
            1 <= w <= CHUNK_SIZE - i,
            1 <= h <= CHUNK_SIZE - j,
            mask@.len() == CHUNK_SIZE * CHUNK_SIZE,
            forall|cu: int, cv: int|
                ii <= cu < ii + w && jj <= cv < jj + h ==> mask_cell(mask@, cu, cv) == m,
            !grow ==> jj + h < CHUNK_SIZE && exists|cu: int, cv: int|
                cv == jj + h && ii <= cu < ii + w && #[trigger] mask_cell(mask@, cu, cv) != m,
        decreases CHUNK_SIZE - j - h, if grow {
            1int
        } else {
            0int
        },
    {
        let ghost jh = (j + h) as int;
        let mut k: usize = 0;
        let mut row_ok = true;
        while k < w
            invariant
                0 <= j < CHUNK_SIZE,
                0 <= i < CHUNK_SIZE,
                jj == j as int,
                ii == i as int,
                jh == j + h,
                n == j * CHUNK_SIZE + i,
                1 <= w <= CHUNK_SIZE - i,
                1 <= h < CHUNK_SIZE - j,
                0 <= k <= w,
                mask@.len() == CHUNK_SIZE * CHUNK_SIZE,
                row_ok ==> forall|cu: int| ii <= cu < ii + k ==> mask_cell(mask@, cu, jh) == m,
                !row_ok ==> exists|cu: int, cv: int|
                    cv == jh && ii <= cu < ii + w && #[trigger] mask_cell(mask@, cu, cv) != m,
            decreases w - k,
        {
            if mask[n + k + h * CHUNK_SIZE] != m {
                proof {
                    assert(mask_cell(mask@, ii + k, jh) != m);
                }
                row_ok = false;
                k = w;
            } else {
                proof {
                    assert(mask_cell(mask@, ii + k, jh) == m);
                }
                k = k + 1;
            }
        }
        if row_ok {
            h = h + 1;
        } else {
            grow = false;
        }
    }
    (w, h)
}

/// Zeroes the rectangle with corner `(i, j)` and extent `(w, h)`, touching
/// nothing else.
fn zero_rect(mask: &mut Vec<u8>, i: usize, j: usize, n: usize, w: usize, h: usize)
    requires
        old(mask)@.len() == CHUNK_SIZE * CHUNK_SIZE,
        i < CHUNK_SIZE,
        j < CHUNK_SIZE,
        n == j * CHUNK_SIZE + i,
        1 <= w <= CHUNK_SIZE - i,
        1 <= h <= CHUNK_SIZE - j,
    ensures
        final(mask)@.len() == CHUNK_SIZE * CHUNK_SIZE,
        forall|cu: int, cv: int|
            0 <= cu < CHUNK_SIZE && 0 <= cv < CHUNK_SIZE ==> #[trigger] mask_cell(
                final(mask)@,
                cu,
                cv,
            ) == (if i <= cu < i + w && j <= cv < j + h {
                0u8
            } else {
                mask_cell(old(mask)@, cu, cv)
            }),
        forall|p: int|
            0 <= p < final(mask)@.len() ==> #[trigger] final(mask)@[p] == old(mask)@[p]
                || final(mask)@[p] == 0,
{
    let ghost jj = j as int;
    let ghost ii = i as int;
    let ghost mask00 = mask@;
    let mut l: usize = 0;
    while l < h
        invariant
            0 <= j < CHUNK_SIZE,
            0 <= i < CHUNK_SIZE,
            jj == j as int,
            ii == i as int,
            n == j * CHUNK_SIZE + i,
            1 <= w <= CHUNK_SIZE - i,
            1 <= h <= CHUNK_SIZE - j,
            0 <= l <= h,
            mask@.len() == CHUNK_SIZE * CHUNK_SIZE,
            mask00.len() == CHUNK_SIZE * CHUNK_SIZE,
            forall|cu: int, cv: int|
                0 <= cu < CHUNK_SIZE && 0 <= cv < CHUNK_SIZE ==> #[trigger] mask_cell(
                    mask@,
                    cu,
                    cv,
                ) == (if ii <= cu < ii + w && jj <= cv < jj + l {
                    0u8
                } else {
                    mask_cell(mask00, cu, cv)
                }),
        decreases h - l,
    {
        let ghost jl = (j + l) as int;
        let mut k: usize = 0;
        while k < w
            invariant
                0 <= j < CHUNK_SIZE,
                0 <= i < CHUNK_SIZE,
                jj == j as int,
                ii == i as int,
                jl == j + l,
                n == j * CHUNK_SIZE + i,
                1 <= w <= CHUNK_SIZE - i,
                1 <= h <= CHUNK_SIZE - j,
                0 <= l < h,
                0 <= k <= w,
                mask@.len() == CHUNK_SIZE * CHUNK_SIZE,
                mask00.len() == CHUNK_SIZE * CHUNK_SIZE,
                forall|cu: int, cv: int|
                    0 <= cu < CHUNK_SIZE && 0 <= cv < CHUNK_SIZE ==> #[trigger] mask_cell(
                        mask@,
                        cu,
                        cv,
                    ) == (if (ii <= cu < ii + w && jj <= cv < jl) || (cv == jl && ii <= cu < ii
                        + k) {
                        0u8
                    } else {
                        mask_cell(mask00, cu, cv)
                    }),
            decreases w - k,
        {
            let ghost prev = mask@;
            mask[n + k + l * CHUNK_SIZE] = 0;
            proof {
                assert(n + k + l * CHUNK_SIZE == jl * CHUNK_SIZE + (ii + k));
                assert forall|cu: int, cv: int|
                    0 <= cu < CHUNK_SIZE && 0 <= cv < CHUNK_SIZE implies #[trigger] mask_cell(
                    mask@,
                    cu,
                    cv,
                ) == (if (ii <= cu < ii + w && jj <= cv < jl) || (cv == jl && ii <= cu < ii + k
                    + 1) {
                    0u8
                } else {
                    mask_cell(mask00, cu, cv)
                }) by {
                    if cv * CHUNK_SIZE + cu != jl * CHUNK_SIZE + (ii + k) {
                        assert(mask@[cv * CHUNK_SIZE + cu] == prev[cv * CHUNK_SIZE + cu]);
                        assert(mask_cell(mask@, cu, cv) == mask_cell(prev, cu, cv));
                    } else {
                        lemma_flat_index_injective(cu, cv, ii + k, jl);
                        assert(mask_cell(mask@, cu, cv) == 0);
                    }
                }
            }
            k = k + 1;
        }
        l = l + 1;
    }
    proof {
        assert forall|p: int| 0 <= p < mask@.len() implies #[trigger] mask@[p] == mask00[p]
            || mask@[p] == 0 by {
            let cv = p / (CHUNK_SIZE as int);
            let cu = p % (CHUNK_SIZE as int);
            vstd::arithmetic::div_mod::lemma_fundamental_div_mod(p, CHUNK_SIZE as int);
            vstd::arithmetic::div_mod::lemma_mod_bound(p, CHUNK_SIZE as int);
            assert(0 <= cv < CHUNK_SIZE) by (nonlinear_arith)
                requires
                    0 <= p < 1024,
                    p == 32 * cv + cu,
                    0 <= cu < 32,
                    cv == p / 32,
            ;
            assert(p == cv * CHUNK_SIZE + cu) by (nonlinear_arith)
                requires
                    p == 32 * cv + cu,
            ;
            assert(mask_cell(mask@, cu, cv) == mask@[p] && mask_cell(mask00, cu, cv) == mask00[p]);
        }
    }
}

/// Walks one slab's mask row-major, coalesces each run of equal nonzero
/// entries into the largest rectangle of that value, zeroes it and emits
/// its quad. The emitted rectangles, returned as ghost data, are the
/// greedy tiling of the mask: pairwise disjoint, together covering every
/// nonzero cell, each as large as the scan allows and anchored at the
/// first uncovered nonzero cell.
#[verifier::rlimit(100)]
fn emit_slab(mask: &mut Vec<u8>, buff: &mut Vec<Vertex>, d: usize, xd: i8) -> (res: (
    bool,
    Ghost<Seq<QuadRect>>,
))
    requires
        d < 3,
        0 <= xd <= CHUNK_SIZE,
        old(mask)@.len() == CHUNK_SIZE * CHUNK_SIZE,
        forall|n: int| 0 <= n < old(mask)@.len() ==> #[trigger] old(mask)@[n] <= 2,
        old(buff)@.len() % 6 == 0,
    ensures
        final(buff)@.len() >= old(buff)@.len(),
        (final(buff)@.len() - old(buff)@.len()) % 6 == 0,
        final(buff)@.len() <= old(buff)@.len() + 6 * CHUNK_SIZE * CHUNK_SIZE,
        forall|k: int| 0 <= k < old(buff)@.len() ==> final(buff)@[k] == old(buff)@[k],
        forall|k: int|
            old(buff)@.len() <= k < final(buff)@.len() ==> vert_in_chunk(
                #[trigger] final(buff)@[k].data,
            ),
        res.0 == (final(buff)@.len() > old(buff)@.len()),
        res.0 == (exists|n: int| 0 <= n < old(mask)@.len() && #[trigger] old(mask)@[n] != 0),
        res.1@.len() * 6 == final(buff)@.len() - old(buff)@.len(),
        slab_tiling_ok(
            old(mask)@,
            d as int,
            xd as int,
            final(buff)@,
            old(buff)@.len() as int / 6,
            res.1@,
        ),
{
    let u = (d + 1) % 3;
    let v = (d + 2) % 3;
    let start_len = buff.len();
    let ghost mask0 = mask@;
    let ghost len0 = buff@.len() as int;
    let ghost q0 = len0 / 6;
    let ghost mut rects: Seq<QuadRect> = Seq::empty();
    let mut n: usize = 0;
    let mut j: usize = 0;
    while j < CHUNK_SIZE
        invariant
            d < 3,
            u == (d + 1) % 3,
            v == (d + 2) % 3,
            0 <= xd <= CHUNK_SIZE,
            0 <= j <= CHUNK_SIZE,
            n == j * CHUNK_SIZE,
            mask@.len() == CHUNK_SIZE * CHUNK_SIZE,
            mask0.len() == CHUNK_SIZE * CHUNK_SIZE,
            forall|p: int| 0 <= p < mask@.len() ==> #[trigger] mask@[p] <= 2,
            forall|p: int|
                0 <= p < mask@.len() ==> #[trigger] mask@[p] == mask0[p] || mask@[p] == 0,
            start_len == len0,
            len0 == old(buff)@.len(),
            len0 % 6 == 0,
            q0 == len0 / 6,
            6 * q0 == len0,
            buff@.len() >= len0,
            buff@.len() as int <= len0 + 192 * (j as int),
            rects.len() * 6 == buff@.len() - len0,
            forall|k: int| 0 <= k < len0 ==> buff@[k] == old(buff)@[k],
            forall|k: int| len0 <= k < buff@.len() ==> vert_in_chunk(#[trigger] buff@[k].data),
            forall|t: int|
                0 <= t < rects.len() ==> #[trigger] slab_quad_rect_ok(
                    mask0,
                    d as int,
                    xd as int,
                    buff@,
                    q0,
                    rects,
                    t,
                ),
            forall|t1: int, t2: int, cu: int, cv: int|
                #![trigger rect_covers(rects[t1], cu, cv), rect_covers(rects[t2], cu, cv)]
                0 <= t1 < t2 < rects.len() && rect_covers(rects[t1], cu, cv) ==> !rect_covers(
                    rects[t2],
                    cu,
                    cv,
                ),
            forall|cu: int, cv: int|
                #![trigger mask_cell(mask@, cu, cv)]
                0 <= cu < CHUNK_SIZE && 0 <= cv < CHUNK_SIZE ==> (mask_cell(mask@, cu, cv) == 0
                    <==> (mask_cell(mask0, cu, cv) == 0 || covered_before(
                    rects,
                    rects.len() as int,
                    cu,
                    cv,
                ))),
            forall|cu: int, cv: int|
                #![trigger mask_cell(mask0, cu, cv)]
                0 <= cu < CHUNK_SIZE && 0 <= cv < CHUNK_SIZE && cv * CHUNK_SIZE + cu < n
                    && mask_cell(mask0, cu, cv) != 0 ==> covered_before(
                    rects,
                    rects.len() as int,
                    cu,
                    cv,
                ),
        decreases CHUNK_SIZE - j,
    {
        let mut i: usize = 0;
        while i < CHUNK_SIZE
            invariant
                d < 3,
                u == (d + 1) % 3,
                v == (d + 2) % 3,
                0 <= xd <= CHUNK_SIZE,
                0 <= j < CHUNK_SIZE,
                0 <= i <= CHUNK_SIZE,
                n == j * CHUNK_SIZE + i,
                mask@.len() == CHUNK_SIZE * CHUNK_SIZE,
                mask0.len() == CHUNK_SIZE * CHUNK_SIZE,
                forall|p: int| 0 <= p < mask@.len() ==> #[trigger] mask@[p] <= 2,
                forall|p: int|
                    0 <= p < mask@.len() ==> #[trigger] mask@[p] == mask0[p] || mask@[p] == 0,
                start_len == len0,
                len0 == old(buff)@.len(),
                len0 % 6 == 0,
                q0 == len0 / 6,
                6 * q0 == len0,
                buff@.len() >= len0,
                buff@.len() as int <= len0 + 192 * (j as int) + 6 * (i as int),
                rects.len() * 6 == buff@.len() - len0,
                forall|k: int| 0 <= k < len0 ==> buff@[k] == old(buff)@[k],
                forall|k: int| len0 <= k < buff@.len() ==> vert_in_chunk(#[trigger] buff@[k].data),
                forall|t: int|
                    0 <= t < rects.len() ==> #[trigger] slab_quad_rect_ok(
                        mask0,
                        d as int,
                        xd as int,
                        buff@,
                        q0,
                        rects,
                        t,
                    ),
                forall|t1: int, t2: int, cu: int, cv: int|
                    #![trigger rect_covers(rects[t1], cu, cv), rect_covers(rects[t2], cu, cv)]
                    0 <= t1 < t2 < rects.len() && rect_covers(rects[t1], cu, cv) ==> !rect_covers(
                        rects[t2],
                        cu,
                        cv,
                    ),
                forall|cu: int, cv: int|
                    #![trigger mask_cell(mask@, cu, cv)]
                    0 <= cu < CHUNK_SIZE && 0 <= cv < CHUNK_SIZE ==> (mask_cell(mask@, cu, cv) == 0
                        <==> (mask_cell(mask0, cu, cv) == 0 || covered_before(
                        rects,
                        rects.len() as int,
                        cu,
                        cv,
                    ))),
                forall|cu: int, cv: int|
                    #![trigger mask_cell(mask0, cu, cv)]
                    0 <= cu < CHUNK_SIZE && 0 <= cv < CHUNK_SIZE && cv * CHUNK_SIZE + cu < n
                        && mask_cell(mask0, cu, cv) != 0 ==> covered_before(
                        rects,
                        rects.len() as int,
                        cu,
                        cv,
                    ),
            decreases CHUNK_SIZE - i,
        {
            let ghost jj0 = j as int;
            let ghost ii0 = i as int;
            let m = mask[n];
            if m != 0 {
                let ghost jj = j as int;
                let ghost ii = i as int;
                proof {
                    // the anchor cell still carries its original nonzero
                    // value and no earlier rectangle consumed it
                    assert(mask_cell(mask@, ii, jj) == m);
                    assert(mask_cell(mask0, ii, jj) == m);
                    assert(!covered_before(rects, rects.len() as int, ii, jj));
                }
                let (w, h) = scan_rect(mask, i, j, n, m);

                // The quad corners in block coordinates.
                let mut x: [i8; 3] = [0; 3];
                x[d] = xd;
                x[u] = i as i8;
                x[v] = j as i8;
                let mut du: [i8; 3] = [0; 3];
                du[u] = w as i8;
                let mut dv: [i8; 3] = [0; 3];
                dv[v] = h as i8;
                proof {
                    assert(0 <= x@[0] + du@[0] + dv@[0] <= CHUNK_SIZE);
                    assert(0 <= x@[1] + du@[1] + dv@[1] <= CHUNK_SIZE);
                    assert(0 <= x@[2] + du@[2] + dv@[2] <= CHUNK_SIZE);
                }

                let p0 = (x[0] as u8, x[1] as u8, x[2] as u8);
                let p1 = ((x[0] + du[0]) as u8, (x[1] + du[1]) as u8, (x[2] + du[2]) as u8);
                let p2 = ((x[0] + dv[0]) as u8, (x[1] + dv[1]) as u8, (x[2] + dv[2]) as u8);
                let p3 = (
                    (x[0] + du[0] + dv[0]) as u8,
                    (x[1] + du[1] + dv[1]) as u8,
                    (x[2] + du[2] + dv[2]) as u8,
                );
                proof {
                    // each corner sits where the sweep frame says
                    assert((p0.0 as int, p0.1 as int, p0.2 as int) == axis_pos(
                        d as int,
                        xd as int,
                        ii,
                        jj,
                    ));
                    assert((p1.0 as int, p1.1 as int, p1.2 as int) == axis_pos(
                        d as int,
                        xd as int,
                        ii + w,
                        jj,
                    ));
                    assert((p2.0 as int, p2.1 as int, p2.2 as int) == axis_pos(
                        d as int,
                        xd as int,
                        ii,
                        jj + h,
                    ));
                    assert((p3.0 as int, p3.1 as int, p3.2 as int) == axis_pos(
                        d as int,
                        xd as int,
                        ii + w,
                        jj + h,
                    ));
                }
                let ghost len_pre = buff@.len() as int;
                let ghost buff_pre = buff@;
                let dir = d * 2 + (m as usize) - 1;
                append_quad(buff, [p0, p1, p2, p3], dir);
                proof {
                    let newr = QuadRect { iu: ii, iv: jj, w: w as int, h: h as int };
                    let rects2 = rects.push(newr);
                    let t_new = rects.len() as int;
                    // the whole rectangle still carries the original value,
                    // so none of it was consumed before
                    assert forall|cu: int, cv: int|
                        #![trigger mask_cell(mask0, cu, cv)]
                        ii <= cu < ii + w && jj <= cv < jj + h implies mask_cell(mask0, cu, cv)
                        == m && !covered_before(rects, t_new, cu, cv) by {
                        assert(mask_cell(mask@, cu, cv) == m);
                        assert(mask@[cv * CHUNK_SIZE + cu] == mask0[cv * CHUNK_SIZE + cu]
                            || mask@[cv * CHUNK_SIZE + cu] == 0);
                    }
                    let q_new: int = len_pre / 6;
                    assert(6 * q_new == len_pre);
                    assert(q_new == q0 + t_new);
                    assert(quad_at(buff@, q_new) =~= buff@.subrange(len_pre, len_pre + 6));
                    assert(is_face_quad(
                        quad_at(buff@, q_new),
                        d as int,
                        m,
                        xd as int,
                        ii,
                        jj,
                        w as int,
                        h as int,
                    ));
                    // the new quad is its rectangle, greedy-maximal and
                    // anchored at the first uncovered nonzero cell
                    assert(rects2[t_new] == newr);
                    assert forall|cu: int, cv: int|
                        0 <= cu < CHUNK_SIZE && 0 <= cv < CHUNK_SIZE && (cv < jj || (cv == jj && cu
                            < ii)) && #[trigger] mask_cell(mask0, cu, cv) != 0
                        implies covered_before(rects2, t_new, cu, cv) by {
                        assert(cv * CHUNK_SIZE + cu < n);
                        assert(covered_before(rects, rects.len() as int, cu, cv));
                        lemma_covered_before_push(rects, newr, t_new, cu, cv);
                    }
                    // the run and the rectangle are as large as the scan
                    // found possible
                    if ii + w < CHUNK_SIZE {
                        assert(mask_cell(mask@, ii + w, jj) != m);
                        if mask_cell(mask@, ii + w, jj) == 0 {
                            assert(mask_cell(mask0, ii + w, jj) == 0 || covered_before(
                                rects,
                                t_new,
                                ii + w,
                                jj,
                            ));
                        } else {
                            assert(mask_cell(mask0, ii + w, jj) == mask_cell(mask@, ii + w, jj));
                        }
                        lemma_covered_before_push(rects, newr, t_new, ii + w, jj);
                        assert(mask_cell(mask0, ii + w, jj) != m || covered_before(
                            rects2,
                            t_new,
                            ii + w,
                            jj,
                        ));
                    }
                    if jj + h < CHUNK_SIZE {
                        assert(exists|cu: int, cv: int|
                            cv == jj + h && ii <= cu < ii + w && #[trigger] mask_cell(
                                mask@,
                                cu,
                                cv,
                            ) != m);
                        let (scu, scv): (int, int) = choose|cu: int, cv: int|
                            cv == jj + h && ii <= cu < ii + w && #[trigger] mask_cell(
                                mask@,
                                cu,
                                cv,
                            ) != m;
                        assert(scv == jj + h && ii <= scu < ii + w && mask_cell(mask@, scu, scv)
                            != m);
                        if mask_cell(mask@, scu, scv) == 0 {
                            assert(mask_cell(mask0, scu, scv) == 0 || covered_before(
                                rects,
                                t_new,
                                scu,
                                scv,
                            ));
                        } else {
                            assert(mask_cell(mask0, scu, scv) == mask_cell(mask@, scu, scv));
                        }
                        lemma_covered_before_push(rects, newr, t_new, scu, scv);
                        assert(scv == jj + h && ii <= scu < ii + w && (mask_cell(mask0, scu, scv)
                            != m || covered_before(rects2, t_new, scu, scv)));
                    }
                    assert(rect_wf(newr));
                    assert(mask_cell(mask0, newr.iu, newr.iv) == m && m != 0);
                    assert forall|cu: int, cv: int|
                        #![trigger mask_cell(mask0, cu, cv)]
                        rect_covers(newr, cu, cv) implies mask_cell(mask0, cu, cv) == m by {}
                    assert(is_face_quad(
                        quad_at(buff@, q0 + t_new),
                        d as int,
                        m,
                        xd as int,
                        newr.iu,
                        newr.iv,
                        newr.w,
                        newr.h,
                    ));
                    assert(newr.iu + newr.w == CHUNK_SIZE || mask_cell(
                        mask0,
                        newr.iu + newr.w,
                        newr.iv,
                    ) != m || covered_before(rects2, t_new, newr.iu + newr.w, newr.iv));
                    assert(newr.iv + newr.h == CHUNK_SIZE || exists|cu: int, cv: int|
                        #![trigger mask_cell(mask0, cu, cv)]
                        cv == newr.iv + newr.h && newr.iu <= cu < newr.iu + newr.w && (mask_cell(
                            mask0,
                            cu,
                            cv,
                        ) != m || covered_before(rects2, t_new, cu, cv)));
                    assert(slab_quad_rect_ok(
                        mask0,
                        d as int,
                        xd as int,
                        buff@,
                        q0,
                        rects2,
                        t_new,
                    ));
                    // the old quads keep their descriptions
                    assert forall|t: int| 0 <= t < t_new implies #[trigger] slab_quad_rect_ok(
                        mask0,
                        d as int,
                        xd as int,
                        buff@,
                        q0,
                        rects2,
                        t,
                    ) by {
                        lemma_slab_quad_push(
                            mask0,
                            d as int,
                            xd as int,
                            buff_pre,
                            buff@,
                            q0,
                            rects,
                            newr,
                            t,
                        );
                    }
                    // disjointness: the new rectangle's cells were uncovered
                    assert forall|t1: int, t2: int, cu: int, cv: int|
                        #![trigger rect_covers(rects2[t1], cu, cv), rect_covers(rects2[t2], cu, cv)]
                        0 <= t1 < t2 < rects2.len() && rect_covers(rects2[t1], cu, cv)
                        implies !rect_covers(rects2[t2], cu, cv) by {
                        if t2 == t_new {
                            if rect_covers(newr, cu, cv) {
                                assert(ii <= cu < ii + w && jj <= cv < jj + h);
                                assert(mask_cell(mask0, cu, cv) == m);
                                assert(!covered_before(rects, rects.len() as int, cu, cv));
                                assert(rects2[t1] == rects[t1]);
                            }
                        } else {
                            assert(rects2[t1] == rects[t1]);
                            assert(rects2[t2] == rects[t2]);
                        }
                    }
                    // the cover bookkeeping, restated over the longer list
                    assert forall|cu: int, cv: int|
                        0 <= cu < CHUNK_SIZE && 0 <= cv < CHUNK_SIZE implies ((#[trigger] mask_cell(
                        mask@,
                        cu,
                        cv,
                    ) == 0) <==> (mask_cell(mask0, cu, cv) == 0 || covered_before(
                        rects2,
                        t_new,
                        cu,
                        cv,
                    ))) by {
                        lemma_covered_before_push(rects, newr, t_new, cu, cv);
                    }
                    rects = rects2;
                }
                let ghost mask_before_zero = mask@;
                zero_rect(mask, i, j, n, w, h);
                proof {
                    let t_new = rects.len() as int - 1;
                    // zeroed exactly the new rectangle: the cover invariant
                    // holds again with it included
                    assert forall|cu: int, cv: int|
                        0 <= cu < CHUNK_SIZE && 0 <= cv < CHUNK_SIZE implies ((#[trigger] mask_cell(
                        mask@,
                        cu,
                        cv,
                    ) == 0) <==> (mask_cell(mask0, cu, cv) == 0 || covered_before(
                        rects,
                        rects.len() as int,
                        cu,
                        cv,
                    ))) by {
                        if ii <= cu < ii + w && jj <= cv < jj + h {
                            assert(mask_cell(mask@, cu, cv) == 0);
                            assert(rect_covers(rects[t_new], cu, cv));
                            assert(covered_before(rects, rects.len() as int, cu, cv));
                        } else {
                            assert(mask_cell(mask@, cu, cv) == mask_cell(mask_before_zero, cu, cv));
                            if mask_cell(mask@, cu, cv) == 0 {
                                assert(mask_cell(mask0, cu, cv) == 0 || covered_before(
                                    rects,
                                    t_new,
                                    cu,
                                    cv,
                                ));
                                if covered_before(rects, t_new, cu, cv) {
                                    let uu = choose|uu: int|
                                        0 <= uu < t_new && uu < rects.len() && rect_covers(
                                            #[trigger] rects[uu],
                                            cu,
                                            cv,
                                        );
                                    assert(covered_before(rects, rects.len() as int, cu, cv));
                                }
                            } else {
                                if covered_before(rects, rects.len() as int, cu, cv) {
                                    let uu = choose|uu: int|
                                        0 <= uu < rects.len() && uu < rects.len() && rect_covers(
                                            #[trigger] rects[uu],
                                            cu,
                                            cv,
                                        );
                                    if uu == t_new {
                                        assert(rect_covers(rects[t_new], cu, cv));
                                        assert(false);
                                    } else {
                                        assert(covered_before(rects, t_new, cu, cv));
                                        assert(false);
                                    }
                                }
                            }
                        }
                    }
                    // entries only ever drop to zero
                    assert forall|p: int| 0 <= p < mask@.len() implies #[trigger] mask@[p]
                        == mask0[p] || mask@[p] == 0 by {
                        assert(mask@[p] == mask_before_zero[p] || mask@[p] == 0);
                    }
                    // the scan prefix grows by the consumed run
                    assert forall|cu: int, cv: int|
                        0 <= cu < CHUNK_SIZE && 0 <= cv < CHUNK_SIZE && cv * CHUNK_SIZE + cu < n + w
                            && #[trigger] mask_cell(mask0, cu, cv) != 0 implies covered_before(
                        rects,
                        rects.len() as int,
                        cu,
                        cv,
                    ) by {
                        if cv * CHUNK_SIZE + cu >= n {
                            assert(cv == jj && ii <= cu < ii + w);
                            assert(rect_covers(rects[t_new], cu, cv));
                        }
                    }
                }

                i = i + w;
                n = n + w;
            } else {
                proof {
                    assert(mask_cell(mask@, ii0, jj0) == 0);
                    assert(mask_cell(mask0, ii0, jj0) == 0 || covered_before(
                        rects,
                        rects.len() as int,
                        ii0,
                        jj0,
                    ));
                    assert forall|cu: int, cv: int|
                        0 <= cu < CHUNK_SIZE && 0 <= cv < CHUNK_SIZE && cv * CHUNK_SIZE + cu < n + 1
                            && #[trigger] mask_cell(mask0, cu, cv) != 0 implies covered_before(
                        rects,
                        rects.len() as int,
                        cu,
                        cv,
                    ) by {
                        if cv * CHUNK_SIZE + cu == n {
                            assert(cu == ii0 && cv == jj0);
                        }
                    }
                }
                i = i + 1;
                n = n + 1;
            }
        }
        j = j + 1;
    }
    proof {
        // the scan visited every cell, so the rectangles cover every
        // nonzero entry of the mask this function started from
        assert forall|cu: int, cv: int|
            0 <= cu < CHUNK_SIZE && 0 <= cv < CHUNK_SIZE && #[trigger] mask_cell(mask0, cu, cv)
                != 0 implies covered_before(rects, rects.len() as int, cu, cv) by {
            assert(cv * CHUNK_SIZE + cu < n);
        }
        // nonempty output exactly when the mask held a nonzero entry
        if rects.len() > 0 {
            let r0 = rects[0];
            assert(slab_quad_rect_ok(mask0, d as int, xd as int, buff@, q0, rects, 0));
            assert(mask0[r0.iv * CHUNK_SIZE + r0.iu] != 0);
        }
        assert forall|p: int| 0 <= p < mask0.len() && #[trigger] mask0[p] != 0 implies buff@.len()
            > len0 by {
            let cv = p / (CHUNK_SIZE as int);
            let cu = p % (CHUNK_SIZE as int);
            vstd::arithmetic::div_mod::lemma_fundamental_div_mod(p, CHUNK_SIZE as int);
            vstd::arithmetic::div_mod::lemma_mod_bound(p, CHUNK_SIZE as int);
            assert(0 <= cv < CHUNK_SIZE) by (nonlinear_arith)
                requires
                    0 <= p < 1024,
                    p == 32 * cv + cu,
                    0 <= cu < 32,
                    cv == p / 32,
            ;
            assert(p == cv * CHUNK_SIZE + cu) by (nonlinear_arith)
                requires
                    p == 32 * cv + cu,
            ;
            assert(mask_cell(mask0, cu, cv) != 0);
            assert(covered_before(rects, rects.len() as int, cu, cv));
            let uu = choose|uu: int|
                0 <= uu < rects.len() && uu < rects.len() && rect_covers(
                    #[trigger] rects[uu],
                    cu,
                    cv,
                );
            assert(rects.len() > 0);
        }
    }
    (buff.len() > start_len, Ghost(rects))
}

/// Runs the greedy sweep over all three axes and all slabs, appending the
/// mesh of the whole chunk to `buff`. The mesh is empty exactly when no
/// face of the chunk is visible, and its quads are the greedy tiling of
/// the visible faces: some layout of rectangles, in sweep order, pairwise
/// disjoint within each slab, together covering every visible face, each
/// maximal in the scan order.
#[verifier::rlimit(100)]
pub fn mesh(blocks: &ChunkBlocks, nbrs: &Neighbours, buff: &mut Vec<Vertex>) -> (count: usize)
    requires
        blocks.wf(),
        nbrs.wf(),
    ensures
        count == final(buff)@.len(),
        count % 6 == 0,
        count <= 3 * (CHUNK_SIZE + 1) * 6 * CHUNK_SIZE * CHUNK_SIZE,
        forall|k: int| 0 <= k < count ==> vert_in_chunk(#[trigger] final(buff)@[k].data),
        (count > 0) <==> any_face(blocks, nbrs),
        exists|layout: Seq<SlabQuad>|
            #[trigger] layout_wf_upto(blocks, nbrs, final(buff)@, layout, 3, -1),
{
    buff.clear();
    let ghost mut layout: Seq<SlabQuad> = Seq::empty();
    let mut d: usize = 0;
    while d < 3
        invariant
            blocks.wf(),
            nbrs.wf(),
            0 <= d <= 3,
            buff@.len() % 6 == 0,
            buff@.len() as int <= 202752 * (d as int),
            forall|k: int| 0 <= k < buff@.len() ==> vert_in_chunk(#[trigger] buff@[k].data),
            (buff@.len() > 0) <==> face_before(blocks, nbrs, d as int, -1),
            layout_wf_upto(blocks, nbrs, buff@, layout, d as int, -1),
        decreases 3 - d,
    {
        let mut s: i8 = -1;
        while s < CHUNK_SIZE as i8
            invariant
                blocks.wf(),
                nbrs.wf(),
                0 <= d < 3,
                -1 <= s <= CHUNK_SIZE,
                buff@.len() % 6 == 0,
                buff@.len() as int <= 202752 * (d as int) + 6144 * (s as int + 1),
                forall|k: int| 0 <= k < buff@.len() ==> vert_in_chunk(#[trigger] buff@[k].data),
                (buff@.len() > 0) <==> face_before(blocks, nbrs, d as int, s as int),
                layout_wf_upto(blocks, nbrs, buff@, layout, d as int, s as int),
            decreases CHUNK_SIZE - s,
        {
            let mut mask = build_mask(blocks, nbrs, d, s);
            let ghost mask_pre = mask@;
            let ghost len_pre = buff@.len() as int;
            let ghost buff_pre = buff@;
            let ghost layout_pre = layout;
            let (e, slab_rects) = emit_slab(&mut mask, buff, d, s + 1);
            proof {
                lemma_slab_face_equiv(blocks, nbrs, d as int, s as int, mask_pre);
                if e {
                    assert(face_before(blocks, nbrs, d as int, s as int + 1));
                } else {
                    if buff@.len() > 0 {
                        let (dd, ss, iu, iv) = choose|dd: int, ss: int, iu: int, iv: int|
                            0 <= dd < 3 && -1 <= ss < CHUNK_SIZE && 0 <= iu < CHUNK_SIZE && 0 <= iv
                                < CHUNK_SIZE && (dd < d || (dd == d && ss < s))
                                && face_exists_at(blocks, nbrs, dd, ss, iu, iv);
                        assert(face_before(blocks, nbrs, d as int, s as int + 1));
                    }
                    if face_before(blocks, nbrs, d as int, s as int + 1) {
                        let (dd, ss, iu, iv) = choose|dd: int, ss: int, iu: int, iv: int|
                            0 <= dd < 3 && -1 <= ss < CHUNK_SIZE && 0 <= iu < CHUNK_SIZE && 0 <= iv
                                < CHUNK_SIZE && (dd < d || (dd == d && ss < s + 1))
                                && face_exists_at(blocks, nbrs, dd, ss, iu, iv);
                        if dd == d && ss == s {
                            // the face sits in this very slab, which held no
                            // nonzero mask entry: contradiction
                            assert(mask_pre[iv * CHUNK_SIZE + iu] != 0);
                            assert(false);
                        } else {
                            assert(face_before(blocks, nbrs, d as int, s as int));
                        }
                    }
                }
                // fold this slab's rectangles into the layout, translated
                // from mask entries to the faces the mask was built from
                layout = layout + tag_rects(slab_rects@, d as int, s as int);
                lemma_extend_layout(
                    blocks,
                    nbrs,
                    buff_pre,
                    buff@,
                    layout_pre,
                    layout,
                    slab_rects@,
                    d as int,
                    s as int,
                    mask_pre,
                );
            }
            s = s + 1;
        }
        proof {
            if face_before(blocks, nbrs, d as int + 1, -1) {
                let (dd, ss, iu, iv) = choose|dd: int, ss: int, iu: int, iv: int|
                    0 <= dd < 3 && -1 <= ss < CHUNK_SIZE && 0 <= iu < CHUNK_SIZE && 0 <= iv
                        < CHUNK_SIZE && (dd < d + 1 || (dd == d + 1 && ss < -1)) && face_exists_at(
                        blocks,
                        nbrs,
                        dd,
                        ss,
                        iu,
                        iv,
                    );
                assert(face_before(blocks, nbrs, d as int, CHUNK_SIZE as int));
            }
            if face_before(blocks, nbrs, d as int, CHUNK_SIZE as int) {
                let (dd, ss, iu, iv) = choose|dd: int, ss: int, iu: int, iv: int|
                    0 <= dd < 3 && -1 <= ss < CHUNK_SIZE && 0 <= iu < CHUNK_SIZE && 0 <= iv
                        < CHUNK_SIZE && (dd < d || (dd == d && ss < CHUNK_SIZE)) && face_exists_at(
                        blocks,
                        nbrs,
                        dd,
                        ss,
                        iu,
                        iv,
                    );
                assert(face_before(blocks, nbrs, d as int + 1, -1));
            }
            assert(layout_wf_upto(blocks, nbrs, buff@, layout, d as int + 1, -1)) by {
                assert forall|t: int| 0 <= t < layout.len() implies slab_lt(
                    (#[trigger] layout[t]).d,
                    layout[t].s,
                    d as int + 1,
                    -1,
                ) by {
                    assert(slab_lt(layout[t].d, layout[t].s, d as int, CHUNK_SIZE as int));
                }
                assert forall|dd: int, ss: int, cu: int, cv: int|
                    0 <= dd < 3 && -1 <= ss < CHUNK_SIZE && 0 <= cu < CHUNK_SIZE && 0 <= cv
                        < CHUNK_SIZE && slab_lt(dd, ss, d as int + 1, -1) && #[trigger] face_exists_at(
                    blocks,
                    nbrs,
                    dd,
                    ss,
                    cu,
                    cv,
                ) implies covered_in_layout_before(layout, layout.len() as int, dd, ss, cu, cv) by {
                    assert(slab_lt(dd, ss, d as int, CHUNK_SIZE as int));
                }
            }
        }
        d = d + 1;
    }
    proof {
        if any_face(blocks, nbrs) {
            let (dd, ss, iu, iv) = choose|dd: int, ss: int, iu: int, iv: int|
                0 <= dd < 3 && -1 <= ss < CHUNK_SIZE && 0 <= iu < CHUNK_SIZE && 0 <= iv < CHUNK_SIZE
                    && face_exists_at(blocks, nbrs, dd, ss, iu, iv);
            assert(face_before(blocks, nbrs, 3, -1));
        }
        if face_before(blocks, nbrs, 3, -1) {
            let (dd, ss, iu, iv) = choose|dd: int, ss: int, iu: int, iv: int|
                0 <= dd < 3 && -1 <= ss < CHUNK_SIZE && 0 <= iu < CHUNK_SIZE && 0 <= iv < CHUNK_SIZE
                    && (dd < 3 || (dd == 3 && ss < -1)) && face_exists_at(blocks, nbrs, dd, ss, iu, iv);
            assert(any_face(blocks, nbrs));
        }
        assert(layout_wf_upto(blocks, nbrs, buff@, layout, 3, -1));
    }
    buff.len()
}

/// A slab's mask holds a nonzero entry exactly when the slab holds a
/// visible face.
proof fn lemma_slab_face_equiv(
    blocks: &ChunkBlocks,
    nbrs: &Neighbours,
    d: int,
    s: int,
    mask_pre: Seq<u8>,
)
    requires
        0 <= d < 3,
        -1 <= s < CHUNK_SIZE,
        mask_pre.len() == CHUNK_SIZE * CHUNK_SIZE,
        forall|iu: int, iv: int|
            0 <= iu < CHUNK_SIZE && 0 <= iv < CHUNK_SIZE ==> mask_pre[iv * CHUNK_SIZE + iu]
                == mask_value(blocks, nbrs, d, s, iu, iv),
    ensures
        (exists|n: int| 0 <= n < mask_pre.len() && #[trigger] mask_pre[n] != 0) <==> (exists|
            iu: int,
            iv: int,
        |
            0 <= iu < CHUNK_SIZE && 0 <= iv < CHUNK_SIZE && face_exists_at(
                blocks,
                nbrs,
                d,
                s,
                iu,
                iv,
            )),
{
    if exists|n: int| 0 <= n < mask_pre.len() && #[trigger] mask_pre[n] != 0 {
        let n = choose|n: int| 0 <= n < mask_pre.len() && #[trigger] mask_pre[n] != 0;
        let c = CHUNK_SIZE as int;
        lemma_fundamental_div_mod(n, c);
        let iv = n / c;
        let iu = n % c;
        assert(0 <= iv < CHUNK_SIZE) by (nonlinear_arith)
            requires
                c == 32,
                0 <= n < c * c,
                iv == n / c,
        ;
        assert(n == iv * CHUNK_SIZE + iu);
        assert(mask_pre[iv * CHUNK_SIZE + iu] == mask_value(blocks, nbrs, d, s, iu, iv));
        assert(face_exists_at(blocks, nbrs, d, s, iu, iv));
    }
    if exists|iu: int, iv: int|
        0 <= iu < CHUNK_SIZE && 0 <= iv < CHUNK_SIZE && face_exists_at(blocks, nbrs, d, s, iu, iv) {
        let (iu, iv) = choose|iu: int, iv: int|
            0 <= iu < CHUNK_SIZE && 0 <= iv < CHUNK_SIZE && face_exists_at(
                blocks,
                nbrs,
                d,
                s,
                iu,
                iv,
            );
        assert(mask_pre[iv * CHUNK_SIZE + iu] == mask_value(blocks, nbrs, d, s, iu, iv));
        assert(mask_pre[iv * CHUNK_SIZE + iu] != 0);
    }
}

/// Meshes one generated chunk against its neighbors, the entry point the
/// mesher workers use. A chunk without a single solid block produces no
/// vertices at all.
pub fn mesh_chunk(blocks: &ChunkBlocks, nbrs: &Neighbours, buff: &mut Vec<Vertex>) -> (count:
    usize)
    requires
        blocks.wf(),
        nbrs.wf(),
    ensures
        count == final(buff)@.len(),
        count % 6 == 0,
        forall|k: int| 0 <= k < count ==> vert_in_chunk(#[trigger] final(buff)@[k].data),
        count <= 3 * (CHUNK_SIZE + 1) * 6 * CHUNK_SIZE * CHUNK_SIZE,
        blocks.solid_blocks_count == 0 ==> count == 0,
        blocks.solid_blocks_count > 0 ==> ((count > 0) <==> any_face(blocks, nbrs)),
        blocks.solid_blocks_count > 0 ==> exists|layout: Seq<SlabQuad>|
            #[trigger] layout_wf_upto(blocks, nbrs, final(buff)@, layout, 3, -1),
{
    if blocks.solid_blocks_count == 0 {
        buff.clear();
        return 0;
    }
    mesh(blocks, nbrs, buff)
}

} // verus!
