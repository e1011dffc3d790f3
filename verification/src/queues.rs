//! Device queue selection: which queue families to create queues on, and
//! which queue serves graphics and presentation. The device reports its
//! families as capability flags and queue counts; the selection reserves
//! one graphics queue and one transfer queue, preferring to spread them
//! over families, and hands every later caller an unused queue of the
//! capability it asks for.

use vstd::prelude::*;

verus! {

/// The graphics capability bit of a queue family.
pub const QUEUE_GRAPHICS: u32 = 0x1;

/// The transfer capability bit of a queue family.
pub const QUEUE_TRANSFER: u32 = 0x4;

/// Graphics queues to reserve.
pub const GRAPHICS_COUNT: u32 = 1;

/// Transfer queues to reserve.
pub const TRANSFER_COUNT: u32 = 1;

/// What the device reports about one queue family: its capability flags
/// and how many queues it offers.
#[derive(Debug, Clone, Copy, PartialEq, Eq, Structural)]
pub struct QueueFamilyProperties {
    pub flags: u32,
    pub count: u32,
}

/// One concrete queue: its family and its index within the family.
#[derive(Debug, Clone, Copy, PartialEq, Eq, Structural)]
pub struct QueueInfo {
    pub family: u32,
    pub index: u32,
}

/// A selected family: its index in the device's list, its flags, how many
/// of its queues are created, and how many of those are already handed
/// out.
#[derive(Debug, Clone, Copy, PartialEq, Eq, Structural)]
pub struct QueueFamilyInfo {
    pub index: u32,
    pub flags: u32,
    pub count: u32,
    pub offset: u32,
}

/// Graphics queues the selection takes from family `f` when `fg` are
/// already found.
pub open spec fn graphics_take(f: QueueFamilyProperties, fg: int) -> int {
    if f.flags & QUEUE_GRAPHICS != 0 && fg < GRAPHICS_COUNT && f.count > 0 {
        if GRAPHICS_COUNT - fg < f.count {
            GRAPHICS_COUNT - fg
        } else {
            f.count as int
        }
    } else {
        0
    }
}

/// Transfer queues the selection takes from family `f` when `ft` are
/// already found and `g` of the family's queues went to graphics.
pub open spec fn transfer_take(f: QueueFamilyProperties, ft: int, g: int) -> int {
    if f.flags & QUEUE_TRANSFER != 0 && ft < TRANSFER_COUNT && f.count - g > 0 {
        if TRANSFER_COUNT - ft < f.count - g {
            TRANSFER_COUNT - ft
        } else {
            f.count - g
        }
    } else {
        0
    }
}

/// How many graphics and transfer queues the selection has found in the
/// families before index `i`.
pub open spec fn found_before(fams: Seq<QueueFamilyProperties>, i: int) -> (int, int)
    decreases i,
{
    if i <= 0 {
        (0, 0)
    } else {
        let (fg, ft) = found_before(fams, i - 1);
        let g = graphics_take(fams[i - 1], fg);
        let t = transfer_take(fams[i - 1], ft, g);
        (fg + g, ft + t)
    }
}

/// How many of family `i`'s queues the selection uses.
pub open spec fn family_used(fams: Seq<QueueFamilyProperties>, i: int) -> int {
    let (fg, ft) = found_before(fams, i);
    let g = graphics_take(fams[i], fg);
    g + transfer_take(fams[i], ft, g)
}

/// Whether family `i` gets any queues at all.
pub open spec fn family_selected(fams: Seq<QueueFamilyProperties>, i: int) -> bool {
    family_used(fams, i) > 0
}

/// Whether family `i` can serve as the graphics-and-present family: it is
/// selected, carries the graphics capability, and can present to the
/// surface.
pub open spec fn graphics_candidate(
    fams: Seq<QueueFamilyProperties>,
    support: Seq<bool>,
    i: int,
) -> bool {
    family_selected(fams, i) && fams[i].flags & QUEUE_GRAPHICS != 0 && support[i]
}

/// The selected families before index `i`, in device order.
pub open spec fn selected_before(fams: Seq<QueueFamilyProperties>, i: int) -> Seq<QueueFamilyInfo>
    decreases i,
{
    if i <= 0 {
        Seq::empty()
    } else {
        selected_before(fams, i - 1) + if family_selected(fams, i - 1) {
            seq![
                QueueFamilyInfo {
                    index: (i - 1) as u32,
                    flags: fams[i - 1].flags,
                    count: family_used(fams, i - 1) as u32,
                    offset: 0,
                },
            ]
        } else {
            Seq::empty()
        }
    }
}

/// The queues manager: the selected families with their hand-out cursors,
/// and the queue that serves graphics and presentation.
#[derive(Debug)]
pub struct QueuesManager {
    pub families: Vec<QueueFamilyInfo>,
    pub graphics: QueueInfo,
}

impl QueuesManager {
    pub open spec fn wf(&self) -> bool {
        forall|k: int|
            0 <= k < self.families@.len() ==> (#[trigger] self.families@[k]).offset
                <= self.families@[k].count
    }

    /// Selects the families to create queues on and the graphics-present
    /// queue. Fails exactly when no selected family both draws and
    /// presents. On success also reports, per selected family, how many
    /// queues to create on it.
    pub fn new(families: &Vec<QueueFamilyProperties>, surface_support: &Vec<bool>) -> (r: Option<
        (QueuesManager, Vec<(u32, u32)>),
    >)
        requires
            families@.len() == surface_support@.len(),
            families@.len() <= u32::MAX,
        ensures
            r is None ==> forall|j: int|
                0 <= j < families@.len() ==> !graphics_candidate(families@, surface_support@, j),
            r matches Some((qm, infos)) ==> {
                &&& qm.wf()
                &&& exists|g: int|
                    {
                        &&& 0 <= g < families@.len()
                        &&& graphics_candidate(families@, surface_support@, g)
                        &&& (forall|j: int|
                            0 <= j < g ==> !graphics_candidate(families@, surface_support@, j))
                        &&& qm.graphics == (QueueInfo { family: g as u32, index: 0 })
                    }
                &&& infos@.len() == selected_before(families@, families@.len() as int).len()
                &&& (forall|k: int|
                    0 <= k < infos@.len() ==> #[trigger] infos@[k] == (
                    selected_before(families@, families@.len() as int)[k].index,
                    selected_before(families@, families@.len() as int)[k].count,
                    ))
                &&& qm.families@.len() == selected_before(families@, families@.len() as int).len()
                &&& (forall|k: int|
                    0 <= k < qm.families@.len() ==> {
                        let sel = selected_before(families@, families@.len() as int)[k];
                        (#[trigger] qm.families@[k]).index == sel.index && qm.families@[k].flags
                            == sel.flags && qm.families@[k].count == sel.count
                            && qm.families@[k].offset == (if sel.index == qm.graphics.family {
                            1int
                        } else {
                            0int
                        })
                    })
            },
    {
        let n = families.len();
        let mut selected: Vec<QueueFamilyInfo> = Vec::new();
        let mut found_graphics: u32 = 0;
        let mut found_transfer: u32 = 0;
        let mut i: usize = 0;
        while i < n
            invariant
                n == families@.len(),
                n <= u32::MAX,
                0 <= i <= n,
                (found_graphics as int, found_transfer as int) == found_before(
                    families@,
                    i as int,
                ),
                found_graphics <= GRAPHICS_COUNT,
                found_transfer <= TRANSFER_COUNT,
                selected@ == selected_before(families@, i as int),
                forall|k: int|
                    0 <= k < selected@.len() ==> (#[trigger] selected@[k]).offset == 0 && 1
                        <= selected@[k].count <= GRAPHICS_COUNT + TRANSFER_COUNT,
            decreases n - i,
        {
            let f = families[i];
            let g: u32 = if f.flags & QUEUE_GRAPHICS != 0 && found_graphics < GRAPHICS_COUNT
                && f.count > 0 {
                if GRAPHICS_COUNT - found_graphics < f.count {
                    GRAPHICS_COUNT - found_graphics
                } else {
                    f.count
                }
            } else {
                0
            };
            let t: u32 = if f.flags & QUEUE_TRANSFER != 0 && found_transfer < TRANSFER_COUNT
                && f.count - g > 0 {
                if TRANSFER_COUNT - found_transfer < f.count - g {
                    TRANSFER_COUNT - found_transfer
                } else {
                    f.count - g
                }
            } else {
                0
            };
            found_graphics = found_graphics + g;
            found_transfer = found_transfer + t;
            let used = g + t;
            let ghost prev = selected@;
            if used > 0 {
                selected.push(
                    QueueFamilyInfo { index: i as u32, flags: f.flags, count: used, offset: 0 },
                );
            }
            proof {
                assert(selected@ =~= selected_before(families@, i + 1));
            }
            i = i + 1;
        }

        // the first selected family that both draws and presents carries
        // the graphics queue
        let mut gi: usize = 0;
        let mut graphics_family: Option<u32> = None;
        while gi < n && graphics_family.is_none()
            invariant
                n == families@.len(),
                families@.len() == surface_support@.len(),
                n <= u32::MAX,
                0 <= gi <= n,
                graphics_family is None ==> forall|j: int|
                    0 <= j < gi ==> !graphics_candidate(families@, surface_support@, j),
                graphics_family matches Some(g) ==> 0 <= g < n && graphics_candidate(
                    families@,
                    surface_support@,
                    g as int,
                ) && forall|j: int|
                    0 <= j < g ==> !graphics_candidate(families@, surface_support@, j),
            decreases n - gi + (if graphics_family is None {
                1int
            } else {
                0int
            }),
        {
            let f = families[gi];
            // recompute this family's take to test whether it was selected
            let (fg, ft) = recompute_found(families, gi);
            let g: u32 = if f.flags & QUEUE_GRAPHICS != 0 && fg < GRAPHICS_COUNT && f.count > 0 {
                if GRAPHICS_COUNT - fg < f.count {
                    GRAPHICS_COUNT - fg
                } else {
                    f.count
                }
            } else {
                0
            };
            let t: u32 = if f.flags & QUEUE_TRANSFER != 0 && ft < TRANSFER_COUNT && f.count - g
                > 0 {
                if TRANSFER_COUNT - ft < f.count - g {
                    TRANSFER_COUNT - ft
                } else {
                    f.count - g
                }
            } else {
                0
            };
            let used_here = g + t;
            if used_here > 0 && f.flags & QUEUE_GRAPHICS != 0 && surface_support[gi] {
                graphics_family = Some(gi as u32);
                proof {
                    assert(graphics_candidate(families@, surface_support@, gi as int));
                }
            } else {
                proof {
                    assert(!graphics_candidate(families@, surface_support@, gi as int));
                }
                gi = gi + 1;
            }
        }

        match graphics_family {
            None => None,
            Some(gf) => {
                // mark the graphics queue as handed out and emit the
                // per-family creation counts
                let mut infos: Vec<(u32, u32)> = Vec::new();
                let mut k: usize = 0;
                let ghost sel = selected_before(families@, families@.len() as int);
                while k < selected.len()
                    invariant
                        selected@ == sel,
                        0 <= k <= selected@.len(),
                        infos@.len() == k,
                        forall|j: int|
                            0 <= j < k ==> #[trigger] infos@[j] == (sel[j].index, sel[j].count),
                    decreases selected@.len() - k,
                {
                    let entry = selected[k];
                    infos.push((entry.index, entry.count));
                    k = k + 1;
                }
                let mut qfs = selected;
                let mut k2: usize = 0;
                while k2 < qfs.len()
                    invariant
                        0 <= k2 <= qfs@.len(),
                        qfs@.len() == sel.len(),
                        forall|j: int| 0 <= j < sel.len() ==> 1 <= (#[trigger] sel[j]).count,
                        forall|j: int|
                            0 <= j < qfs@.len() ==> {
                                let s = sel[j];
                                (#[trigger] qfs@[j]).index == s.index && qfs@[j].flags == s.flags
                                    && qfs@[j].count == s.count && qfs@[j].offset <= qfs@[j].count
                                    && qfs@[j].offset == (if j < k2 && s.index == gf {
                                    1int
                                } else {
                                    0int
                                })
                            },
                    decreases qfs@.len() - k2,
                {
                    if qfs[k2].index == gf {
                        let ghost prev = qfs@;
                        let entry = &mut qfs[k2];
                        entry.offset = 1;
                        proof {
                            assert(prev[k2 as int].count > 0);
                        }
                    }
                    k2 = k2 + 1;
                }
                Some((QueuesManager { families: qfs, graphics: QueueInfo { family: gf, index: 0 } }, infos))
            },
        }
    }

    /// The queue used for rendering and presenting.
    pub fn get_default_graphics(&self) -> (r: QueueInfo)
        ensures
            r == self.graphics,
    {
        self.graphics
    }

    /// Hands out an unused queue of the first family carrying all the
    /// requested capability flags; fails exactly when every such family
    /// has handed out all its queues.
    pub fn fetch_queue(&mut self, family_type: u32) -> (r: Option<QueueInfo>)
        requires
            old(self).wf(),
        ensures
            final(self).wf(),
            final(self).graphics == old(self).graphics,
            final(self).families@.len() == old(self).families@.len(),
            r is None ==> final(self).families@ == old(self).families@ && forall|k: int|
                0 <= k < old(self).families@.len() ==> !((#[trigger] old(
                    self,
                ).families@[k]).flags & family_type == family_type && old(self).families@[k].count
                    > old(self).families@[k].offset),
            r matches Some(q) ==> exists|k: int|
                {
                    &&& 0 <= k < old(self).families@.len()
                    &&& (#[trigger] old(self).families@[k]).flags & family_type == family_type
                    &&& old(self).families@[k].count > old(self).families@[k].offset
                    &&& q == (QueueInfo {
                        family: old(self).families@[k].index,
                        index: old(self).families@[k].offset,
                    })
                    &&& final(self).families@ == old(self).families@.update(
                        k,
                        (QueueFamilyInfo {
                            index: old(self).families@[k].index,
                            flags: old(self).families@[k].flags,
                            count: old(self).families@[k].count,
                            offset: (old(self).families@[k].offset + 1) as u32,
                        }),
                    )
                    &&& forall|j: int|
                        0 <= j < k ==> !((#[trigger] old(self).families@[j]).flags & family_type
                            == family_type && old(self).families@[j].count > old(
                            self,
                        ).families@[j].offset)
                },
    {
        let mut k: usize = 0;
        while k < self.families.len()
            invariant
                self == old(self),
                self.wf(),
                0 <= k <= self.families@.len(),
                forall|j: int|
                    0 <= j < k ==> !((#[trigger] self.families@[j]).flags & family_type
                        == family_type && self.families@[j].count > self.families@[j].offset),
            decreases self.families@.len() - k,
        {
            let f = self.families[k];
            if f.flags & family_type == family_type && f.count > f.offset {
                let q = QueueInfo { family: f.index, index: f.offset };
                let entry = &mut self.families[k];
                entry.offset = entry.offset + 1;
                return Some(q);
            }
            k = k + 1;
        }
        None
    }
}

/// Replays the selection fold up to family `i`, to test one family's
/// selection without keeping per-family state around.
fn recompute_found(families: &Vec<QueueFamilyProperties>, i: usize) -> (r: (u32, u32))
    requires
        i <= families@.len(),
    ensures
        (r.0 as int, r.1 as int) == found_before(families@, i as int),
        r.0 <= GRAPHICS_COUNT,
        r.1 <= TRANSFER_COUNT,
{
    let mut fg: u32 = 0;
    let mut ft: u32 = 0;
    let mut j: usize = 0;
    while j < i
        invariant
            i <= families@.len(),
            0 <= j <= i,
            (fg as int, ft as int) == found_before(families@, j as int),
            fg <= GRAPHICS_COUNT,
            ft <= TRANSFER_COUNT,
        decreases i - j,
    {
        let f = families[j];
        let g: u32 = if f.flags & QUEUE_GRAPHICS != 0 && fg < GRAPHICS_COUNT && f.count > 0 {
            if GRAPHICS_COUNT - fg < f.count {
                GRAPHICS_COUNT - fg
            } else {
                f.count
            }
        } else {
            0
        };
        let t: u32 = if f.flags & QUEUE_TRANSFER != 0 && ft < TRANSFER_COUNT && f.count - g > 0 {
            if TRANSFER_COUNT - ft < f.count - g {
                TRANSFER_COUNT - ft
            } else {
                f.count - g
            }
        } else {
            0
        };
        fg = fg + g;
        ft = ft + t;
        j = j + 1;
    }
    (fg, ft)
}

} // verus!
