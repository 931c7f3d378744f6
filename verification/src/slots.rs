//! Finding a slot for a request: from the active group of its size
//! class, or from a new group that is planned here and, once memory for it
//! is at hand, installed.

use vstd::prelude::*;
use vstd::std_specs::bits::{u32_trailing_zeros, axiom_u32_trailing_zeros};
use crate::meta::{Meta, low_mask, mask_through, size_class, class_units, size_to_class, is_least_class,
    class_for, lemma_least_class_unique, stride_of, UNIT, IB, PAGESIZE, MMAP_THRESHOLD};
use crate::heap::{Heap, NUM_CLASSES, masks_ok, stride_ok, keeps_in_use, slot_free_in, record_live, free_bits, is_lowest_bit,
    lemma_keeps_fresh_change, lemma_keeps_trans, lemma_keeps_refl};
use crate::group::{group_base_count, base_count, mapped_plan, mapped_plan_spec};

verus! {

/// Where the memory of a new group comes from.
#[derive(Clone, Copy)]
pub enum GroupSource {
    /// A mapping of its own, `needed` bytes long.
    Mapped { needed: usize },
    /// A slot of class `sc` handed out for a request of `req` bytes.
    Carved { sc: usize, req: usize },
}

/// A new group of class `sc` with `cnt` slots, of which the first
/// `active_idx + 1` are active, described by record `meta`.
#[derive(Clone, Copy)]
pub struct GroupPlan {
    pub sc: usize,
    pub meta: usize,
    pub cnt: usize,
    pub active_idx: usize,
    pub source: GroupSource,
}

/// The outcome of looking for a slot of a size class.
#[derive(Clone, Copy)]
pub enum SlotStep {
    /// Slot `idx` of the group with record `meta`.
    Ready { meta: usize, idx: usize },
    /// A new group is needed first.
    Group(GroupPlan),
}

/// A group to be carved comes from a slot of a larger class, for a request
/// that, with its headers, fits in a page, as do the slots of that class;
/// a mapping is a whole number of pages, at most 8 MiB.
pub open spec fn source_ok(plan: GroupPlan) -> bool {
    match plan.source {
        GroupSource::Carved { sc: j, req } => {
            &&& plan.sc < j < 48
            &&& req + IB + UNIT <= PAGESIZE
            &&& UNIT * class_units(j as int) + UNIT <= PAGESIZE
        },
        GroupSource::Mapped { needed } => needed % 4096 == 0 && 4096 <= needed <= 0x80_0000,
    }
}

/// A carved group starts from at least two slots.
proof fn lemma_carved_count(sc: int, usage: nat)
    requires
        0 <= sc < 48,
        !gets_mapping(sc, base_count(sc, usage)),
    ensures
        base_count(sc, usage) >= 2,
{
    crate::meta::lemma_class_units_bounds(sc);
    let size: nat = (UNIT * class_units(sc)) as nat;
    if sc >= 9 {
        let c0 = crate::group::med_cnt_tab(sc % 4);
        crate::group::lemma_halvings_positive(c0, usage, size);
        crate::group::lemma_halvings_positive(crate::group::halve_for_usage(c0, usage), usage, size);
    }
}

/// A carved group's slot comes from a strictly larger class.
proof fn lemma_carved_class_grows(sc: int, c0: nat, j: int, inner: nat)
    requires
        0 <= sc < 48,
        c0 >= 2,
        inner == UNIT + c0 * (UNIT * class_units(sc)) - IB,
        is_least_class(j, inner),
    ensures
        j > sc,
{
    crate::meta::lemma_class_units_bounds(sc);
    let u = class_units(sc);
    assert(c0 * (UNIT * u) >= 2 * (UNIT * u)) by (nonlinear_arith) requires c0 >= 2, u >= 1;
    assert(crate::meta::needed_units(inner) > u);
    if j <= sc {
        crate::meta::lemma_class_units_mono(j, sc);
    }
}

/// Whether a group of class `sc` with `cnt` slots is too large to be
/// carved out of a slot and gets a mapping of its own.
pub open spec fn gets_mapping(sc: int, cnt: nat) -> bool {
    UNIT * class_units(sc) * cnt + UNIT > PAGESIZE / 2
}

/// The record of the planned group `plan` once installed with its memory
/// at `base`: its first `active_idx + 1` slots are available but slot 0,
/// which is handed out; the rest count as freed; it is freeable, of the
/// plan's class, with the plan's slot count, and with the pages of its
/// own mapping if it has one.
pub open spec fn installed(g: Meta, plan: GroupPlan, base: usize) -> bool {
    let maplen: nat = match plan.source {
        GroupSource::Mapped { needed } => (needed / 4096) as nat,
        GroupSource::Carved { .. } => 0,
    };
    &&& g.mem == base
    &&& g.avail_mask == (low_mask(plan.active_idx as u32) - 1) as u32
    &&& g.avail_mask & 1u32 == 0
    &&& g.freed_mask == low_mask((plan.cnt - 1) as u32) & !low_mask(plan.active_idx as u32)
    &&& g.last_idx_spec() == plan.cnt - 1
    &&& g.freeable_spec()
    &&& g.sizeclass_spec() == plan.sc
    &&& g.maplen_spec() == maplen
    &&& g.active_idx == plan.active_idx
}

/// The record of a group of one slot with a mapping of its own, of
/// `needed` bytes (rounded up to pages) at `base`, for a large request:
/// class 63, freeable, its slot handed out.
pub open spec fn large_record(g: Meta, base: usize, needed: nat) -> bool {
    &&& g.mem == base
    &&& g.avail_mask == 0
    &&& g.freed_mask == 0
    &&& g.last_idx_spec() == 0
    &&& g.freeable_spec()
    &&& g.sizeclass_spec() == 63
    &&& g.maplen_spec() == (needed + 4095) / 4096
}

/// A group planned for a request of `req` bytes holds the request in its
/// one slot when that is all it has and the mapping is its own: the
/// mapping is long enough for the request with its headers, or for a whole
/// slot of the class.
pub open spec fn plan_holds(plan: GroupPlan, req: nat) -> bool {
    match plan.source {
        GroupSource::Mapped { needed } => plan.cnt == 1 ==> {
            ||| needed >= UNIT * class_units(plan.sc as int) + UNIT
            ||| {
                &&& needed >= req + IB + UNIT
                &&& !(req + IB + UNIT <= PAGESIZE && UNIT * class_units(plan.sc as int) + UNIT <= PAGESIZE)
            }
        },
        GroupSource::Carved { .. } => true,
    }
}

/// The slots of the least class for a request that fits in half a page
/// (less the headers) fit in a page with a unit to spare.
proof fn lemma_carve_class_small(j: int, inner: nat)
    requires
        is_least_class(j, inner),
        inner <= 2044,
    ensures
        UNIT * class_units(j) + UNIT <= PAGESIZE,
{
    if j >= 25 {
        crate::meta::lemma_class_units_mono(24, j - 1);
    } else {
        crate::meta::lemma_class_units_mono(j, 24);
    }
}

/// The slot count, first active index and source of the group planned for
/// class `sc` and a request of `req` bytes, given the bookkeeping `h`: the
/// count comes from the class usage (see `base_count`); a group too large
/// to be carved out of a slot gets a mapping (see `mapped_plan_spec`, with
/// the usage of the next class counted in for an even class below 32, and
/// the bounce state of the class); otherwise all its slots are active and
/// it is carved out of a slot of the least class that holds it.
#[verifier::opaque]
pub open spec fn planned(h: &Heap, sc: int, req: nat) -> (nat, nat, GroupSource) {
    let usage = h.usage_by_class@[sc] as nat;
    let c0 = base_count(sc, usage);
    if gets_mapping(sc, c0) {
        let usage_adj: nat = if sc % 2 == 0 && sc < 32 {
            vstd::wrapping::usize_specs::wrapping_add(h.usage_by_class@[sc], h.usage_by_class@[sc + 1]) as nat
        } else {
            usage
        };
        let p = mapped_plan_spec(sc, c0, req, usage, usage_adj, h.bouncing(sc));
        (p.0, p.2, GroupSource::Mapped { needed: p.1 as usize })
    } else {
        let inner = (UNIT + c0 * (UNIT * class_units(sc)) - IB) as nat;
        (c0, (c0 - 1) as nat, GroupSource::Carved { sc: class_for(inner) as usize, req: inner as usize })
    }
}

/// Whether a request whose least class is `sc` may move up to the next
/// class: `sc` is even, from 4 to 30 but not 6, and has no groups and no
/// usage.
pub open spec fn may_coarsen(h: &Heap, sc: int) -> bool {
    &&& 4 <= sc < 32
    &&& sc != 6
    &&& sc % 2 == 0
    &&& h.active@[sc]@.len() == 0
    &&& h.usage_by_class@[sc] == 0
}

/// The usage of class `up` as the move up weighs it: 3 more (wrapping)
/// when it has no group, or its head group has no slot to hand out.
pub open spec fn coarse_usage(h: &Heap, up: int) -> usize {
    let u = h.usage_by_class@[up];
    if h.active@[up]@.len() == 0 || ({
        let g = h.metas@[h.active@[up]@[0] as int];
        g.avail_mask == 0 && g.freed_mask == 0
    }) {
        vstd::wrapping::usize_specs::wrapping_add(u, 3)
    } else {
        u
    }
}

/// The class that serves a small request whose least class is `sc`: the
/// next one up when `sc` may move up and that class is used by at most 12
/// slots (see `coarse_usage`), else `sc`.
pub open spec fn serving_class(h: &Heap, sc: int) -> int {
    if may_coarsen(h, sc) && coarse_usage(h, sc + 1) <= 12 { sc + 1 } else { sc }
}

/// A page count of a mapping that fits the address space survives being
/// stored in the high bits of a word.
proof fn lemma_pages_field(t: usize, v: usize)
    by (bit_vector)
    requires
        v == t / 4096,
    ensures
        (v << 12usize) / 4096 == v,
{
}

/// A single bit within a mask makes the mask nonzero.
proof fn lemma_nonzero_within(f: u32, x: u32)
    by (bit_vector)
    ensures
        (f & x == f && f != 0) ==> x != 0,
{
}

/// A mask of low bits reaching bit `a` lies within the one reaching `c`.
proof fn lemma_low_mask_within(a: u32, c: u32)
    by (bit_vector)
    requires
        a <= c,
        c < 32,
    ensures
        (if a >= 31 { 0xffff_ffffu32 } else { ((2u32 << a) - 1u32) as u32 })
            & !(if c >= 31 { 0xffff_ffffu32 } else { ((2u32 << c) - 1u32) as u32 }) == 0,
        (if a >= 31 { 0xffff_ffffu32 } else { ((2u32 << a) - 1u32) as u32 }) & 1u32 == 1u32,
        c == 0 ==> (if c >= 31 { 0xffff_ffffu32 } else { ((2u32 << c) - 1u32) as u32 }) == 1u32
            && (if a >= 31 { 0xffff_ffffu32 } else { ((2u32 << a) - 1u32) as u32 }) == 1u32,
{
}

/// The masks of a freshly installed group, with slot 0 handed out, are
/// disjoint and within its slots.
proof fn lemma_install_masks(la: u32, lc: u32)
    by (bit_vector)
    requires
        la & !lc == 0,
        la & 1u32 == 1u32,
    ensures
        ((la - 1u32) as u32) & (lc & !la) == 0,
        (((la - 1u32) as u32) | (lc & !la)) & !lc == 0,
        ((la - 1u32) as u32) & 1u32 == 0,
        la >= 1,
        (la == 1u32 && lc == 1u32) ==> ((la - 1u32) as u32) | (lc & !la) == 0u32,
{
}

/// A bit met in a mask is met in any mask it lies within, and a mask lies
/// within itself.
proof fn lemma_bit_in_union(f: u32, a: u32, b: u32)
    by (bit_vector)
    ensures
        (f & a == f && f != 0) ==> f & (a | b) != 0,
{
}

/// A mask lies within itself.
proof fn lemma_self_within(x: u32)
    by (bit_vector)
    ensures
        x & !x == 0,
{
}

/// The index of a single bit within the low `last + 1` bits is at most
/// `last`.
proof fn lemma_bit_index(first: u32, tz: u32, lm: u32, last: u32)
    by (bit_vector)
    requires
        first != 0,
        tz < 32,
        (first >> tz) & 1u32 == 1u32,
        last < 32,
        lm == (if last >= 31 { 0xffff_ffffu32 } else { ((2u32 << last) - 1u32) as u32 }),
        first & lm == first,
    ensures
        tz <= last,
{
}

impl Heap {
    /// Plans a new group of class `sc` for a request of `req` bytes: takes a
    /// record, picks the slot count from the class usage, and decides where
    /// its memory comes from. A group too large to be carved out of a slot
    /// gets a mapping; for it the bounce accounting runs and the count may
    /// be trimmed (see `mapped_plan`). Otherwise it is carved out of a slot
    /// of the least class that holds it.
    pub fn alloc_group(&mut self, sc: usize, req: usize) -> (plan: GroupPlan)
        requires
            old(self).wf(),
            sc < NUM_CLASSES,
            req < MMAP_THRESHOLD,
        ensures
            final(self).wf(),
            plan.sc == sc,
            source_ok(plan),
            plan.meta < final(self).metas@.len(),
            final(self).metas@[plan.meta as int].is_zero(),
            !final(self).in_some_ring(plan.meta),
            !final(self).free_metas@.contains(plan.meta),
            1 <= plan.cnt <= 32,
            plan.active_idx < plan.cnt,
            final(self).metas@.len() >= old(self).metas@.len(),
            forall|k: usize| k < old(self).metas@.len() && k != plan.meta ==>
                #[trigger] final(self).metas@[k as int] == old(self).metas@[k as int],
            old(self).free_metas@.contains(plan.meta) || plan.meta == old(self).metas@.len(),
            forall|x: usize| #[trigger] final(self).free_metas@.contains(x) ==> old(self).free_metas@.contains(x),
            final(self).active@ == old(self).active@,
            final(self).usage_by_class@ == old(self).usage_by_class@,
            final(self).mmap_counter == old(self).mmap_counter,
            keeps_in_use(old(self), final(self)),
            plan_holds(plan, req as nat),
            (plan.cnt as nat, plan.active_idx as nat, plan.source) == planned(old(self), sc as int, req as nat),
            plan.meta == old(self).next_record(),
            final(self).metas@.len() == old(self).metas@.len() + (if old(self).free_metas@.len() > 0 { 0int } else { 1int }),
            final(self).free_metas@ == (if old(self).free_metas@.len() > 0 {
                old(self).free_metas@.subrange(1, old(self).free_metas@.len() as int)
            } else {
                old(self).free_metas@
            }),
            plan.source is Mapped ==> final(self).mapping_counted(old(self), sc as int),
            plan.source is Carved ==> final(self).counters_kept(old(self)),
    {
        proof {
            reveal(planned);
        }
        let m = self.alloc_meta();
        proof {
            assert(!record_live(old(self), m as int)) by {
                if m < old(self).metas@.len() && old(self).free_metas@.len() > 0 {
                    assert(old(self).free_metas@[0] == m);
                    assert(old(self).free_metas@.contains(m));
                }
            }
        }
        let usage = self.usage_by_class[sc];
        let cnt = group_base_count(sc, usage);
        proof {
            crate::meta::lemma_class_units_bounds(sc as int);
        }
        let size = UNIT * size_class(sc) as usize;
        assert(size * cnt <= 131056 * 32) by (nonlinear_arith) requires size <= 131056, cnt <= 32;
        if size * cnt + UNIT > PAGESIZE / 2 {
            let nosmall = self.is_bouncing(sc);
            self.account_bounce(sc);
            self.step_seq();
            let mut usage_adj = usage;
            if (sc & 1) == 0 && sc < 32 {
                usage_adj = usage_adj.wrapping_add(self.usage_by_class[sc + 1]);
            }
            proof {
                crate::bits::lemma_fields_usize(sc);
            }
            let (c, needed, aidx) = mapped_plan(sc, cnt, req, usage, usage_adj, nosmall);
            proof {
                lemma_keeps_fresh_change(old(self), self, m);
                crate::group::lemma_page_round_covers((req + IB + UNIT) as nat);
                crate::group::lemma_page_round_covers((size + UNIT) as nat);
                assert(size * 1 == size);
            }
            GroupPlan { sc, meta: m, cnt: c, active_idx: aidx, source: GroupSource::Mapped { needed } }
        } else {
            assert(cnt * size == size * cnt) by (nonlinear_arith);
            let inner = UNIT + cnt * size - IB;
            let j = size_to_class(inner);
            proof {
                lemma_carved_count(sc as int, usage as nat);
                lemma_carved_class_grows(sc as int, cnt as nat, j as int, inner as nat);
                lemma_carve_class_small(j as int, inner as nat);
                assert(is_least_class(class_for(inner as nat), inner as nat));
                lemma_least_class_unique(j as int, class_for(inner as nat), inner as nat);
            }
            proof {
                lemma_keeps_fresh_change(old(self), self, m);
            }
            GroupPlan { sc, meta: m, cnt, active_idx: cnt - 1, source: GroupSource::Carved { sc: j, req: inner } }
        }
    }

    /// Gives the record of a planned group back when no memory could be
    /// had for it.
    pub fn abandon_group(&mut self, plan: &GroupPlan)
        requires
            old(self).wf(),
            plan.meta < old(self).metas@.len(),
            !old(self).in_some_ring(plan.meta),
            !old(self).free_metas@.contains(plan.meta),
        ensures
            final(self).wf(),
            final(self).free_metas@ == old(self).free_metas@.push(plan.meta),
            final(self).metas@ == old(self).metas@.update(plan.meta as int, final(self).metas@[plan.meta as int]),
            final(self).metas@[plan.meta as int].is_zero(),
            final(self).active@ == old(self).active@,
            final(self).usage_by_class@ == old(self).usage_by_class@,
    {
        self.free_meta(plan.meta);
    }

    /// Installs a planned group whose memory starts at `base`: its record
    /// gets the memory, slot count, class and mapping length; the first
    /// `active_idx + 1` slots are available, the rest count as freed; the
    /// class usage grows by the slot count. Slot 0 is handed out and the
    /// group goes to the tail of its class's ring.
    pub fn install_group(&mut self, plan: &GroupPlan, base: usize)
        requires
            old(self).wf(),
            plan.sc < NUM_CLASSES,
            plan.meta < old(self).metas@.len(),
            old(self).metas@[plan.meta as int].is_zero(),
            !old(self).in_some_ring(plan.meta),
            !old(self).free_metas@.contains(plan.meta),
            1 <= plan.cnt <= 32,
            plan.active_idx < plan.cnt,
            base != 0,
            base % 16 == 0,
            plan.source matches GroupSource::Mapped { needed } ==> needed / 4096 < 0x10_0000,
        ensures
            final(self).wf(),
            final(self).metas@ == old(self).metas@.update(plan.meta as int, final(self).metas@[plan.meta as int]),
            installed(final(self).metas@[plan.meta as int], *plan, base),
            final(self).active@[plan.sc as int]@ == old(self).active@[plan.sc as int]@.push(plan.meta),
            forall|t: int| 0 <= t < NUM_CLASSES && t != plan.sc ==> #[trigger] final(self).active@[t] == old(self).active@[t],
            final(self).usage_by_class@ == old(self).usage_by_class@.update(plan.sc as int,
                vstd::wrapping::usize_specs::wrapping_add(old(self).usage_by_class@[plan.sc as int], plan.cnt)),
            final(self).free_metas@ == old(self).free_metas@,
            final(self).unmap_seq@ == old(self).unmap_seq@,
            final(self).bounces@ == old(self).bounces@,
            final(self).seq == old(self).seq,
            final(self).mmap_counter == old(self).mmap_counter,
            keeps_in_use(old(self), final(self)),
    {
        let sc = plan.sc;
        let m = plan.meta;
        let cnt = plan.cnt;
        let aidx = plan.active_idx;
        let u = self.usage_by_class[sc];
        self.usage_by_class.set(sc, u.wrapping_add(cnt));
        let la = mask_through(aidx as u32);
        let lc = mask_through((cnt - 1) as u32);
        proof {
            lemma_low_mask_within(aidx as u32, (cnt - 1) as u32);
            lemma_install_masks(la, lc);
        }
        let mut g = Meta::zero();
        g.mem = base;
        g.avail_mask = la - 1;
        g.freed_mask = lc & !la;
        g.active_idx = aidx as u8;
        g.set_last_idx(cnt - 1);
        g.set_freeable(true);
        g.set_sizeclass(sc);
        match plan.source {
            GroupSource::Mapped { needed } => {
                g.set_maplen(needed >> 12);
                proof {
                    crate::bits::lemma_fields_usize(needed);
                }
            },
            GroupSource::Carved { .. } => {
                g.set_maplen(0);
            },
        }
        self.metas.set(m, g);
        proof {
            assert(masks_ok(g));
            assert(crate::heap::stride_ok(g)) by {
                if cnt == 1 {
                    assert(la == 1u32 && lc == 1u32);
                }
            }
            assert(forall|k: int| 0 <= k < self.metas@.len() ==> crate::heap::stride_ok(#[trigger] self.metas@[k]));
            assert forall|t: int, x: usize| 0 <= t < NUM_CLASSES && #[trigger] self.active@[t]@.contains(x) implies
                self.ring_member_ok(t, x) by {
                assert(old(self).ring_member_ok(t, x));
                assert(x != m);
            }
            assert(forall|k: int| 0 <= k < self.metas@.len() ==> masks_ok(#[trigger] self.metas@[k]));
            assert forall|k: int| 0 <= k < self.free_metas@.len() implies self.metas@[#[trigger] self.free_metas@[k] as int].is_zero() by {
                assert(self.free_metas@[k] != m);
            }
            assert(self.ring_member_ok(sc as int, m));
            assert(!self.active@[sc as int]@.contains(m));
        }
        self.ring_push(sc, m);
        proof {
            lemma_keeps_fresh_change(old(self), self, m);
        }
    }

    /// Finds a slot of class `sc` for a request of `req` bytes: one the
    /// active group can hand out (`try_avail`), or else a new group to be
    /// planned.
    pub fn alloc_slot(&mut self, sc: usize, req: usize) -> (r: SlotStep)
        requires
            old(self).wf(),
            sc < NUM_CLASSES,
            req < MMAP_THRESHOLD,
        ensures
            final(self).wf(),
            final(self).metas@.len() >= old(self).metas@.len(),
            forall|t: int| 0 <= t < NUM_CLASSES && t != sc ==> #[trigger] final(self).active@[t] == old(self).active@[t],
            forall|x: usize| #[trigger] final(self).active@[sc as int]@.contains(x) ==> old(self).active@[sc as int]@.contains(x),
            forall|x: usize| #[trigger] final(self).free_metas@.contains(x) ==> old(self).free_metas@.contains(x),
            final(self).mmap_counter == old(self).mmap_counter,
            keeps_in_use(old(self), final(self)),
            r matches SlotStep::Ready { meta, idx } ==> slot_free_in(old(self), meta, idx),
            (r is Ready) == old(self).has_slot(sc as int),
            r matches SlotStep::Ready { meta, idx } ==> meta == old(self).offer(sc as int).0
                && is_lowest_bit(1u32 << idx as u32, old(self).offer(sc as int).1),
            r matches SlotStep::Ready { meta, .. } ==> final(self).metas@[meta as int].sizeclass_spec() == sc
                && stride_of(final(self).metas@[meta as int]) >= UNIT * class_units(sc as int),
            r matches SlotStep::Group(plan) ==> plan_holds(plan, req as nat),
            r matches SlotStep::Group(plan) ==>
                (plan.cnt as nat, plan.active_idx as nat, plan.source) == planned(old(self), sc as int, req as nat)
                && plan.meta == old(self).next_record(),
            r matches SlotStep::Group(plan) ==> if plan.source is Mapped {
                final(self).mapping_counted(old(self), sc as int)
            } else {
                final(self).counters_kept(old(self))
            },
            final(self).active@[sc as int]@ == old(self).taken_ring(sc as int),
            final(self).usage_by_class@ == old(self).usage_by_class@,
            r matches SlotStep::Ready { idx, .. } ==> {
                &&& final(self).metas@ == old(self).taken_metas(sc as int, 1u32 << idx as u32)
                &&& final(self).bounces@ == old(self).taken_bounces(sc as int)
                &&& final(self).free_metas@ == old(self).free_metas@
                &&& final(self).seq == old(self).seq
                &&& final(self).unmap_seq@ == old(self).unmap_seq@
            },
            r matches SlotStep::Group(plan) ==> {
                &&& final(self).metas@.subrange(0, old(self).metas@.len() as int) == old(self).taken_metas(sc as int, 0)
                &&& final(self).metas@.len() == old(self).metas@.len() + (if old(self).free_metas@.len() > 0 { 0int } else { 1int })
                &&& final(self).free_metas@ == (if old(self).free_metas@.len() > 0 {
                    old(self).free_metas@.subrange(1, old(self).free_metas@.len() as int)
                } else {
                    old(self).free_metas@
                })
            },
            r matches SlotStep::Ready { .. } ==> forall|k: usize| k < old(self).metas@.len() && !old(self).active@[sc as int]@.contains(k) ==>
                #[trigger] final(self).metas@[k as int] == old(self).metas@[k as int],
            r matches SlotStep::Group(plan) ==> {
                &&& forall|k: usize| k < old(self).metas@.len() && !old(self).active@[sc as int]@.contains(k) && k != plan.meta ==>
                    #[trigger] final(self).metas@[k as int] == old(self).metas@[k as int]
                &&& (old(self).free_metas@.contains(plan.meta) || plan.meta == old(self).metas@.len())
            },
            r matches SlotStep::Ready { meta, idx } ==> {
                &&& meta < final(self).metas@.len()
                &&& final(self).active@[sc as int]@.len() > 0
                &&& final(self).active@[sc as int]@[0] == meta
                &&& idx <= final(self).metas@[meta as int].last_idx_spec()
                &&& (1u32 << idx as u32) & final(self).metas@[meta as int].avail_mask == 0
            },
            r matches SlotStep::Group(plan) ==> {
                &&& plan.sc == sc
                &&& source_ok(plan)
                &&& plan.meta < final(self).metas@.len()
                &&& final(self).metas@[plan.meta as int].is_zero()
                &&& !final(self).in_some_ring(plan.meta)
                &&& !final(self).free_metas@.contains(plan.meta)
                &&& 1 <= plan.cnt <= 32
                &&& plan.active_idx < plan.cnt
            },
    {
        let first = self.try_avail(sc);
        if first != 0 {
            let meta = self.active[sc][0];
            let idx = first.trailing_zeros();
            proof {
                assert(self.active@[sc as int]@.contains(meta));
                assert(self.ring_member_ok(sc as int, meta));
                axiom_u32_trailing_zeros(first);
                let g = self.metas@[meta as int];
                lemma_bit_index(first, idx, low_mask(g.last_idx_spec() as u32), g.last_idx_spec() as u32);
                assert(self.active@[sc as int]@.contains(meta));
                assert(self.ring_member_ok(sc as int, meta));
                let og = old(self).metas@[meta as int];
                assert(stride_ok(og));
                lemma_nonzero_within(first, og.avail_mask | og.freed_mask);
                lemma_nonzero_within(first, old(self).offer(sc as int).1);
                assert(g.bitfields == og.bitfields);
                assert(first == 1u32 << idx) by (bit_vector)
                    requires first != 0, first & ((first - 1u32) as u32) == 0, idx < 32, (first >> idx) & 1u32 == 1u32;
            }
            return SlotStep::Ready { meta, idx: idx as usize };
        }
        let ghost h1 = *self;
        let plan = self.alloc_group(sc, req);
        proof {
            assert(self.metas@.subrange(0, h1.metas@.len() as int) =~= h1.metas@) by {
                vstd::std_specs::vec::axiom_spec_len(&h1.metas);
                assert forall|k: int| 0 <= k < h1.metas@.len() implies #[trigger] self.metas@[k] == h1.metas@[k] by {
                    if k == plan.meta {
                        assert(h1.free_metas@.contains(plan.meta));
                        let q = choose|q: int| 0 <= q < h1.free_metas@.len() && h1.free_metas@[q] == plan.meta;
                        assert(h1.metas@[h1.free_metas@[q] as int].is_zero());
                        let a = self.metas@[k];
                        let b = h1.metas@[k];
                        assert(a.mem == b.mem && a.avail_mask == b.avail_mask && a.freed_mask == b.freed_mask
                            && a.bitfields == b.bitfields && a.active_idx == b.active_idx);
                    } else {
                        let ku = k as usize;
                        assert(ku as int == k);
                        assert(self.metas@[ku as int] == h1.metas@[ku as int]);
                    }
                }
            }
            lemma_keeps_trans(old(self), &h1, self);
            assert(h1.bouncing(sc as int) == old(self).bouncing(sc as int));
            assert(planned(&h1, sc as int, req as nat) == planned(old(self), sc as int, req as nat)) by {
                reveal(planned);
            }
        }
        SlotStep::Group(plan)
    }

    /// Registers a group of one slot with a mapping of its own, `needed`
    /// bytes at `base`, for a large request: the unmap sequence moves on, a
    /// record is taken and filled (class 63, freeable, mapping length in
    /// pages), and the mapping counter grows by one. Returns the record and
    /// the new counter.
    pub fn register_large(&mut self, base: usize, needed: usize) -> (r: (usize, usize))
        requires
            old(self).wf(),
            base != 0,
            base % 16 == 0,
            needed <= usize::MAX - 4095,
        ensures
            final(self).wf(),
            r.0 < final(self).metas@.len(),
            large_record(final(self).metas@[r.0 as int], base, needed as nat),
            !final(self).in_some_ring(r.0),
            final(self).mmap_counter == vstd::wrapping::u32_specs::wrapping_add(old(self).mmap_counter, 1),
            r.1 == final(self).mmap_counter,
            final(self).active@ == old(self).active@,
            final(self).usage_by_class@ == old(self).usage_by_class@,
            forall|k: usize| k < old(self).metas@.len() && k != r.0 ==>
                #[trigger] final(self).metas@[k as int] == old(self).metas@[k as int],
            old(self).free_metas@.contains(r.0) || r.0 == old(self).metas@.len(),
            r.0 == old(self).next_record(),
            final(self).metas@.len() == old(self).metas@.len() + (if old(self).free_metas@.len() > 0 { 0int } else { 1int }),
            final(self).free_metas@ == (if old(self).free_metas@.len() > 0 {
                old(self).free_metas@.subrange(1, old(self).free_metas@.len() as int)
            } else {
                old(self).free_metas@
            }),
            final(self).seq == crate::heap::next_seq(old(self).seq),
            old(self).seq == 255 ==> forall|k: int| 0 <= k < 32 ==> #[trigger] final(self).unmap_seq@[k] == 0,
            old(self).seq != 255 ==> final(self).unmap_seq@ == old(self).unmap_seq@,
            final(self).bounces@ == old(self).bounces@,
            forall|x: usize| #[trigger] final(self).free_metas@.contains(x) ==> old(self).free_metas@.contains(x),
            keeps_in_use(old(self), final(self)),
    {
        self.step_seq();
        let m = self.alloc_meta();
        let mut g = Meta::zero();
        g.mem = base;
        g.set_last_idx(0);
        g.set_freeable(true);
        g.set_sizeclass(63);
        g.set_maplen((needed + 4095) / 4096);
        proof {
            lemma_pages_field((needed + 4095) as usize, ((needed + 4095) / 4096) as usize);
            crate::heap::lemma_zero_masks_ok(g);
        }
        self.metas.set(m, g);
        proof {
            assert forall|t: int, x: usize| 0 <= t < NUM_CLASSES && #[trigger] self.active@[t]@.contains(x) implies
                self.ring_member_ok(t, x) by {
                assert(x != m);
            }
            assert(forall|k: int| 0 <= k < self.metas@.len() ==> masks_ok(#[trigger] self.metas@[k]));
            assert forall|k: int| 0 <= k < self.free_metas@.len() implies self.metas@[#[trigger] self.free_metas@[k] as int].is_zero() by {
                assert(self.free_metas@[k] != m);
            }
            assert(!self.in_some_ring(m)) by {
                if self.in_some_ring(m) {
                    let t = choose|t: int| 0 <= t < NUM_CLASSES && #[trigger] self.active@[t]@.contains(m);
                }
            }
        }
        self.mmap_counter = self.mmap_counter.wrapping_add(1);
        proof {
            assert(!record_live(old(self), m as int)) by {
                if m < old(self).metas@.len() && old(self).free_metas@.len() > 0 {
                    assert(old(self).free_metas@.contains(m));
                }
            }
            lemma_keeps_fresh_change(old(self), self, m);
        }
        (m, self.mmap_counter as usize)
    }

    /// Looks for a slot for a small request of `n` bytes. A request for an
    /// even class from 4 to 30 (but 6) that has no groups and no usage
    /// moves up to the next odd class when that class is lightly used (up to
    /// 12 slots, counting 3 more if it has no slot to hand out). The head
    /// group of the class hands out its lowest available slot if it has one;
    /// else `alloc_slot` takes over.
    pub fn malloc_small(&mut self, n: usize) -> (r: (usize, SlotStep))
        requires
            old(self).wf(),
            n < MMAP_THRESHOLD,
        ensures
            final(self).wf(),
            r.0 < NUM_CLASSES,
            final(self).metas@.len() >= old(self).metas@.len(),
            final(self).mmap_counter == old(self).mmap_counter,
            keeps_in_use(old(self), final(self)),
            is_least_class(class_for(n as nat), n as nat),
            r.0 == serving_class(old(self), class_for(n as nat)),
            (r.1 is Ready) == old(self).has_slot(r.0 as int),
            r.1 matches SlotStep::Ready { meta, idx } ==> meta == old(self).offer(r.0 as int).0
                && is_lowest_bit(1u32 << idx as u32, old(self).offer(r.0 as int).1),
            r.1 matches SlotStep::Ready { meta, idx } ==> slot_free_in(old(self), meta, idx),
            r.1 matches SlotStep::Ready { meta, .. } ==> final(self).metas@[meta as int].sizeclass_spec() == r.0
                && stride_of(final(self).metas@[meta as int]) >= UNIT * class_units(r.0 as int),
            r.1 matches SlotStep::Group(plan) ==> !record_live(old(self), plan.meta as int),
            r.1 matches SlotStep::Group(plan) ==> plan_holds(plan, n as nat),
            r.1 matches SlotStep::Group(plan) ==>
                (plan.cnt as nat, plan.active_idx as nat, plan.source) == planned(old(self), r.0 as int, n as nat)
                && plan.meta == old(self).next_record(),
            r.1 matches SlotStep::Group(plan) ==> if plan.source is Mapped {
                final(self).mapping_counted(old(self), r.0 as int)
            } else {
                final(self).counters_kept(old(self))
            },
            forall|t: int| 0 <= t < NUM_CLASSES && t != r.0 ==> #[trigger] final(self).active@[t] == old(self).active@[t],
            final(self).active@[r.0 as int]@ == old(self).taken_ring(r.0 as int),
            final(self).usage_by_class@ == old(self).usage_by_class@,
            r.1 matches SlotStep::Ready { idx, .. } ==> {
                &&& final(self).metas@ == old(self).taken_metas(r.0 as int, 1u32 << idx as u32)
                &&& final(self).bounces@ == old(self).taken_bounces(r.0 as int)
                &&& final(self).free_metas@ == old(self).free_metas@
                &&& final(self).seq == old(self).seq
                &&& final(self).unmap_seq@ == old(self).unmap_seq@
            },
            r.1 matches SlotStep::Group(plan) ==> {
                &&& final(self).metas@.subrange(0, old(self).metas@.len() as int) == old(self).taken_metas(r.0 as int, 0)
                &&& final(self).metas@.len() == old(self).metas@.len() + (if old(self).free_metas@.len() > 0 { 0int } else { 1int })
                &&& final(self).free_metas@ == (if old(self).free_metas@.len() > 0 {
                    old(self).free_metas@.subrange(1, old(self).free_metas@.len() as int)
                } else {
                    old(self).free_metas@
                })
            },
            r.1 matches SlotStep::Ready { meta, idx } ==> {
                &&& meta < final(self).metas@.len()
                &&& final(self).active@[r.0 as int]@.len() > 0
                &&& final(self).active@[r.0 as int]@[0] == meta
                &&& idx <= final(self).metas@[meta as int].last_idx_spec()
                &&& (1u32 << idx as u32) & final(self).metas@[meta as int].avail_mask == 0
            },
            r.1 matches SlotStep::Group(plan) ==> {
                &&& plan.sc == r.0
                &&& source_ok(plan)
                &&& plan.meta < final(self).metas@.len()
                &&& final(self).metas@[plan.meta as int].is_zero()
                &&& !final(self).in_some_ring(plan.meta)
                &&& !final(self).free_metas@.contains(plan.meta)
                &&& 1 <= plan.cnt <= 32
                &&& plan.active_idx < plan.cnt
            },
    {
        let mut sc = size_to_class(n);
        proof {
            assert(is_least_class(class_for(n as nat), n as nat));
            lemma_least_class_unique(sc as int, class_for(n as nat), n as nat);
            crate::bits::lemma_fields_usize(sc);
        }
        if self.active[sc].len() == 0 && sc >= 4 && sc < 32 && sc != 6 && (sc & 1) == 0 && self.usage_by_class[sc] == 0 {
            proof {
                crate::bits::lemma_fields_usize(sc);
            }
            let up = sc + 1;
            let mut usage = self.usage_by_class[up];
            let idle = if self.active[up].len() == 0 {
                true
            } else {
                let h = self.active[up][0];
                proof {
                    assert(self.active@[up as int]@.contains(h));
                    assert(self.ring_member_ok(up as int, h));
                }
                self.metas[h].avail_mask == 0 && self.metas[h].freed_mask == 0
            };
            if idle {
                usage = usage.wrapping_add(3);
            }
            if usage <= 12 {
                sc = up;
            }
        }
        if self.active[sc].len() > 0 {
            let g = self.active[sc][0];
            proof {
                assert(self.active@[sc as int]@.contains(g));
                assert(self.ring_member_ok(sc as int, g));
            }
            let mask = self.metas[g].avail_mask;
            if mask != 0 {
                proof {
                    assert(!self.free_metas@.contains(g)) by {
                        if self.free_metas@.contains(g) {
                            let k = choose|k: int| 0 <= k < self.free_metas@.len() && self.free_metas@[k] == g;
                            assert(self.metas@[self.free_metas@[k] as int].is_zero());
                        }
                    }
                    assert(masks_ok(self.metas@[g as int]));
                }
                let ghost h3 = *self;
                let first = self.take_first(g, mask);
                let idx = first.trailing_zeros();
                proof {
                    let pre = h3.metas@[g as int];
                    crate::heap::lemma_free_shrinks(0, pre.freed_mask, 0, self.metas@[g as int].avail_mask, first, mask);
                    lemma_bit_in_union(first, mask, pre.freed_mask);
                    assert forall|k: int| #[trigger] record_live(&h3, k) implies
                        free_bits(self.metas@[k]) & !free_bits(h3.metas@[k]) == 0 by {
                        if k != g {
                            lemma_self_within(free_bits(h3.metas@[k]));
                        }
                    }
                    crate::heap::lemma_keeps_from_frame(&h3, self);
                    axiom_u32_trailing_zeros(first);
                    let gg = self.metas@[g as int];
                    lemma_bit_index(first, idx, low_mask(gg.last_idx_spec() as u32), gg.last_idx_spec() as u32);
                    assert(stride_ok(pre));
                    crate::heap::lemma_free_bits(pre.avail_mask, pre.freed_mask);
                    assert(gg.bitfields == pre.bitfields);
                    assert(first == 1u32 << idx) by (bit_vector)
                        requires first != 0, first & ((first - 1u32) as u32) == 0, idx < 32, (first >> idx) & 1u32 == 1u32;
                }
                return (sc, SlotStep::Ready { meta: g, idx: idx as usize });
            }
        }
        let step = self.alloc_slot(sc, n);
        (sc, step)
    }
}

} // verus!
