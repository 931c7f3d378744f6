//! Donating spare memory to the allocator: the region is cut into groups
//! of one slot, from the largest class down, that are ready to hand out.

use vstd::prelude::*;
use crate::meta::{Meta, class_units, size_class, low_mask, UNIT};
use crate::heap::{Heap, NUM_CLASSES, masks_ok};
use crate::slot::{u64_at, write_u64};

verus! {

/// The groups a donated region from `a` to `b` is cut into, trying class
/// `sc`, then every fourth class below it down to class 1 or more: a group
/// of one slot of the class, header included, when it still fits, each
/// one right after the last. Each is given by its address and class.
pub open spec fn donated(a: int, b: int, sc: int) -> Seq<(int, int)>
    decreases sc + 4,
{
    if sc <= 0 || b <= a {
        Seq::empty()
    } else if b - a < (class_units(sc) + 1) * UNIT {
        donated(a, b, sc - 4)
    } else {
        seq![(a, sc)] + donated(a + (class_units(sc) + 1) * UNIT, b, sc - 4)
    }
}

/// Whether byte `k` of the region at `base` lies in the header of one of
/// the groups `gs`: the record reference at its start, or its index byte.
pub open spec fn in_header(gs: Seq<(int, int)>, base: int, k: int) -> bool {
    exists|i: int| 0 <= i < gs.len() && (gs[i].0 - base <= k < gs[i].0 - base + 8 || k == gs[i].0 - base + 13)
}

/// The record of a donated group of class `sc` at `addr`: one slot, not
/// freeable, no mapping of its own, its slot counting as freed.
pub open spec fn donated_record(g: Meta, addr: int, sc: int) -> bool {
    &&& g.mem == addr
    &&& g.avail_mask == 0
    &&& g.freed_mask == 1
    &&& g.last_idx_spec() == 0
    &&& !g.freeable_spec()
    &&& g.sizeclass_spec() == sc
    &&& g.maplen_spec() == 0
    &&& g.active_idx == 0
}

/// The masks of a donated group are in order.
proof fn lemma_donated_masks()
    by (bit_vector)
    ensures
        0u32 & 1u32 == 0,
        (0u32 | 1u32) & !1u32 == 0,
        ((2u32 << 0u32) - 1u32) as u32 == 1u32,
{
}

/// Cutting one more group off keeps the rest of the cut in order.
proof fn lemma_donated_step(a: int, b: int, sc: int)
    requires
        0 < sc <= 47,
        b > a,
    ensures
        b - a < (class_units(sc) + 1) * UNIT ==> donated(a, b, sc) == donated(a, b, sc - 4),
        b - a >= (class_units(sc) + 1) * UNIT ==>
            donated(a, b, sc) == seq![(a, sc)] + donated(a + (class_units(sc) + 1) * UNIT, b, sc - 4),
        donated(a, b, sc - 4) == donated(a, b, if sc < 4 { 0 } else { sc - 4 }),
        donated(a + (class_units(sc) + 1) * UNIT, b, sc - 4)
            == donated(a + (class_units(sc) + 1) * UNIT, b, if sc < 4 { 0 } else { sc - 4 }),
{
}

/// The records `ids` of the groups `gs` made so far from the region at
/// `base` are in order: each has its record, joined its ring, and is named
/// in its header; the other rings are as they were in `h0`; the other
/// bytes before `a` and after are zero; the groups come before `a` in
/// decreasing classes above `sc`.
#[verifier::opaque]
pub open spec fn groups_ok(h0: Heap, h: Heap, mem: Seq<u8>, gs: Seq<(int, int)>, ids: Seq<usize>,
    base: int, a: int, sc: int) -> bool {
    &&& ids.len() == gs.len()
    &&& forall|i: int| #![trigger gs[i]] 0 <= i < gs.len() ==> {
        &&& gs[i].1 > sc
        &&& 0 < gs[i].1 <= 47
        &&& base <= gs[i].0
        &&& gs[i].0 + (class_units(gs[i].1) + 1) * UNIT <= a
        &&& h.active@[gs[i].1]@.contains(ids[i])
        &&& group_made(h0, h, mem, gs[i], ids[i], base)
    }
    &&& forall|i: int, j: int| 0 <= i < j < gs.len() ==> gs[i].1 > gs[j].1
    &&& rings_untouched(h0, h, gs)
    &&& zero_outside(mem, gs, base)
}

/// Group `g` (address and class) of the region at `base` has record `id`
/// (see `donated_record`), at the tail of its ring as it was in `h0`, and
/// its header names the record and holds index byte 255.
pub open spec fn group_made(h0: Heap, h: Heap, mem: Seq<u8>, g: (int, int), id: usize, base: int) -> bool {
    &&& id < h.metas@.len()
    &&& donated_record(h.metas@[id as int], g.0, g.1)
    &&& h.active@[g.1]@ == h0.active@[g.1]@.push(id)
    &&& u64_at(mem, g.0 - base) == id + 1
    &&& mem[g.0 - base + 13] == 255
}

/// The rings of classes that no group of `gs` has are as in `h0`.
pub open spec fn rings_untouched(h0: Heap, h: Heap, gs: Seq<(int, int)>) -> bool {
    forall|t: int| 0 <= t < NUM_CLASSES && (forall|i: int| 0 <= i < gs.len() ==> gs[i].1 != t)
        ==> #[trigger] h.active@[t] == h0.active@[t]
}

/// Every byte of the region at `base` outside the headers of `gs` is zero.
pub open spec fn zero_outside(mem: Seq<u8>, gs: Seq<(int, int)>, base: int) -> bool {
    forall|kk: int| 0 <= kk < mem.len() && !in_header(gs, base, kk) ==> #[trigger] mem[kk] == 0
}

/// What a finished donation leaves: every group `gs[i]` has record
/// `ids[i]` (see `donated_record`), at the tail of its ring, named in its
/// header with index byte 255; rings of other classes are as in `h0`;
/// every other byte of the region is zero.
pub open spec fn groups_done(h0: Heap, h: Heap, mem: Seq<u8>, gs: Seq<(int, int)>, ids: Seq<usize>, base: int) -> bool {
    &&& ids.len() == gs.len()
    &&& forall|i: int| #![trigger gs[i]] 0 <= i < gs.len() ==> group_made(h0, h, mem, gs[i], ids[i], base)
    &&& rings_untouched(h0, h, gs)
    &&& zero_outside(mem, gs, base)
}

/// Nothing donated yet: a cleared region and untouched rings are in order.
proof fn lemma_groups_start(h0: Heap, mem: Seq<u8>, base: int)
    requires
        forall|j: int| 0 <= j < mem.len() ==> #[trigger] mem[j] == 0,
    ensures
        groups_ok(h0, h0, mem, Seq::empty(), Seq::empty(), base, base, 48),
{
    reveal(groups_ok);
}

/// The groups stay in order when the next class to try is lower or the
/// place to cut from moves on.
proof fn lemma_groups_lower(h0: Heap, h: Heap, mem: Seq<u8>, gs: Seq<(int, int)>, ids: Seq<usize>,
    base: int, a: int, sc: int, a2: int, sc2: int)
    requires
        groups_ok(h0, h, mem, gs, ids, base, a, sc),
        a <= a2,
        sc2 <= sc,
    ensures
        groups_ok(h0, h, mem, gs, ids, base, a2, sc2),
{
    reveal(groups_ok);
}

/// A finished donation is in order.
proof fn lemma_groups_finish(h0: Heap, h: Heap, mem: Seq<u8>, gs: Seq<(int, int)>, ids: Seq<usize>,
    base: int, a: int, sc: int)
    requires
        groups_ok(h0, h, mem, gs, ids, base, a, sc),
    ensures
        groups_done(h0, h, mem, gs, ids, base),
{
    reveal(groups_ok);
}

/// One more group, of class `sc` at `a`, made by `donate_group`, keeps the
/// groups in order.
proof fn lemma_groups_step(h0: Heap, hb: Heap, h: Heap, mb: Seq<u8>, mem: Seq<u8>, gs: Seq<(int, int)>,
    ids0: Seq<usize>, m: usize, base: int, a: int, sc: int, sc2: int)
    requires
        groups_ok(h0, hb, mb, gs, ids0, base, a, sc),
        0 < sc <= 47,
        sc2 < sc,
        base <= a,
        mem.len() == mb.len(),
        a - base + (class_units(sc) + 1) * UNIT <= mb.len(),
        m < h.metas@.len(),
        donated_record(h.metas@[m as int], a, sc),
        !hb.in_some_ring(m),
        h.active@[sc]@ == hb.active@[sc]@.push(m),
        forall|t: int| 0 <= t < NUM_CLASSES && t != sc ==> #[trigger] h.active@[t] == hb.active@[t],
        forall|x: usize| #[trigger] hb.in_some_ring(x) ==> x < h.metas@.len() && h.metas@[x as int] == hb.metas@[x as int],
        u64_at(mem, a - base) == m + 1,
        mem[a - base + 13] == 255,
        mem[a - base + 12] == 0,
        mem[a - base + (class_units(sc) + 1) * UNIT - 4] == 0,
        forall|k: int| 0 <= k < mb.len() && !(a - base <= k < a - base + 8) && k != a - base + 12 && k != a - base + 13
            && k != a - base + (class_units(sc) + 1) * UNIT - 4 ==> #[trigger] mem[k] == mb[k],
    ensures
        groups_ok(h0, h, mem, gs.push((a, sc)), ids0.push(m), base, a + (class_units(sc) + 1) * UNIT, sc2),
{
    reveal(groups_ok);
    crate::meta::lemma_class_units_bounds(sc);
    let gs1 = gs.push((a, sc));
    let ids = ids0.push(m);
    let off = a - base;
    let a2 = a + (class_units(sc) + 1) * UNIT;
    assert forall|i: int| 0 <= i < gs.len() implies {
        &&& ids0[i] != m
        &&& gs[i].1 != sc
        &&& gs[i].0 - base + 14 <= off
    } by {
        crate::meta::lemma_class_units_bounds(gs[i].1);
        assert(hb.active@[gs[i].1]@.contains(ids0[i]));
        assert(hb.in_some_ring(ids0[i]));
    }
    assert forall|i: int| #![trigger gs1[i]] 0 <= i < gs1.len() implies {
        &&& gs1[i].1 > sc2
        &&& 0 < gs1[i].1 <= 47
        &&& base <= gs1[i].0
        &&& gs1[i].0 + (class_units(gs1[i].1) + 1) * UNIT <= a2
        &&& h.active@[gs1[i].1]@.contains(ids[i])
        &&& group_made(h0, h, mem, gs1[i], ids[i], base)
    } by {
        if i < gs.len() {
            assert(gs1[i] == gs[i]);
            assert(ids[i] == ids0[i]);
            assert(hb.in_some_ring(ids0[i]));
            let o = gs[i].0 - base;
            assert(mem[o] == mb[o] && mem[o + 1] == mb[o + 1] && mem[o + 2] == mb[o + 2] && mem[o + 3] == mb[o + 3]);
            assert(mem[o + 4] == mb[o + 4] && mem[o + 5] == mb[o + 5] && mem[o + 6] == mb[o + 6] && mem[o + 7] == mb[o + 7]);
            assert(mem[o + 13] == mb[o + 13]);
        } else {
            assert(ids[i] == m);
            assert(forall|q: int| 0 <= q < gs.len() ==> gs[q].1 != sc);
            assert(hb.active@[sc] == h0.active@[sc]);
            assert(h.active@[sc]@[h.active@[sc]@.len() - 1] == m);
        }
    }
    assert forall|i: int, j: int| 0 <= i < j < gs1.len() implies gs1[i].1 > gs1[j].1 by {
        assert(gs1[i] == gs[i]);
        if j < gs.len() {
            assert(gs1[j] == gs[j]);
        }
    }
    assert forall|t: int| 0 <= t < NUM_CLASSES && (forall|i: int| 0 <= i < gs1.len() ==> gs1[i].1 != t)
        implies #[trigger] h.active@[t] == h0.active@[t] by {
        assert(gs1[gs.len() as int].1 != t);
        assert forall|i: int| 0 <= i < gs.len() implies gs[i].1 != t by {
            assert(gs1[i] == gs[i]);
        }
    }
    assert forall|kk: int| 0 <= kk < mem.len() && !in_header(gs1, base, kk) implies #[trigger] mem[kk] == 0 by {
        assert(!in_header(gs, base, kk)) by {
            if in_header(gs, base, kk) {
                let i = choose|i: int| 0 <= i < gs.len()
                    && (gs[i].0 - base <= kk < gs[i].0 - base + 8 || kk == gs[i].0 - base + 13);
                assert(gs1[i] == gs[i]);
            }
        }
        assert(gs1[gs.len() as int] == (a, sc));
        let endm = off + (class_units(sc) + 1) * UNIT - 4;
        if kk != off + 12 && kk != endm {
            assert(!(off <= kk < off + 8) && kk != off + 13);
            assert(mem[kk] == mb[kk]);
            assert(mb[kk] == 0);
        }
    }
}

impl Heap {
    /// Makes the memory of `mem` at `off` (address `a`) a donated group of
    /// class `sc` (see `donated_record`): it gets a fresh record, named in
    /// its header, with index byte 255, the byte before the header's index
    /// byte and the check byte after its slot cleared; the group joins the
    /// tail of its class's ring.
    fn donate_group(&mut self, mem: &mut [u8], off: usize, a: usize, sc: usize) -> (m: usize)
        requires
            old(self).wf(),
            0 < sc < NUM_CLASSES,
            a != 0,
            a % 16 == 0,
            off + (class_units(sc as int) + 1) * UNIT <= old(mem)@.len(),
        ensures
            final(self).wf(),
            m < final(self).metas@.len(),
            donated_record(final(self).metas@[m as int], a as int, sc as int),
            !old(self).in_some_ring(m),
            final(self).active@[sc as int]@ == old(self).active@[sc as int]@.push(m),
            forall|t: int| 0 <= t < NUM_CLASSES && t != sc ==> #[trigger] final(self).active@[t] == old(self).active@[t],
            forall|x: usize| #[trigger] old(self).in_some_ring(x) ==> x < final(self).metas@.len()
                && final(self).metas@[x as int] == old(self).metas@[x as int],
            final(mem)@.len() == old(mem)@.len(),
            final(self).metas@.len() >= old(self).metas@.len(),
            forall|k: int| 0 <= k < old(self).metas@.len() && k != m ==> #[trigger] final(self).metas@[k] == old(self).metas@[k],
            final(self).usage_by_class@ == old(self).usage_by_class@,
            final(self).counters_kept(old(self)),
            final(self).mmap_counter == old(self).mmap_counter,
            u64_at(final(mem)@, off as int) == m + 1,
            final(mem)@[off + 13] == 255,
            final(mem)@[off + 12] == 0,
            final(mem)@[off + (class_units(sc as int) + 1) * UNIT - 4] == 0,
            forall|k: int| 0 <= k < old(mem)@.len() && !(off <= k < off + 8) && k != off + 12 && k != off + 13
                && k != off + (class_units(sc as int) + 1) * UNIT - 4 ==> #[trigger] final(mem)@[k] == old(mem)@[k],
    {
        proof {
            crate::meta::lemma_class_units_bounds(sc as int);
            vstd::slice::axiom_spec_len(&*old(mem));
        }
        let units = size_class(sc) as usize + 1;
        let m = self.alloc_meta();
        let nm = self.metas.len();
        assert(m < nm);
        let mut g = Meta::zero();
        g.mem = a;
        g.freed_mask = 1;
        g.set_last_idx(0);
        g.set_freeable(false);
        g.set_sizeclass(sc);
        g.set_maplen(0);
        proof {
            lemma_donated_masks();
            assert(masks_ok(g));
        }
        let ghost hm = *self;
        self.metas.set(m, g);
        proof {
            assert forall|t: int, x: usize| 0 <= t < NUM_CLASSES && #[trigger] self.active@[t]@.contains(x) implies
                self.ring_member_ok(t, x) by {
                assert(hm.ring_member_ok(t, x));
                if x == m {
                    assert(hm.in_some_ring(m));
                }
            }
            assert(forall|q: int| 0 <= q < self.metas@.len() ==> masks_ok(#[trigger] self.metas@[q]));
            assert forall|q: int| 0 <= q < self.free_metas@.len() implies self.metas@[#[trigger] self.free_metas@[q] as int].is_zero() by {
                assert(self.free_metas@[q] != m);
            }
            assert(!self.active@[sc as int]@.contains(m)) by {
                if self.active@[sc as int]@.contains(m) {
                    assert(hm.in_some_ring(m));
                }
            }
            assert forall|x: usize| #[trigger] old(self).in_some_ring(x) implies x < self.metas@.len()
                && self.metas@[x as int] == old(self).metas@[x as int] by {
                let t = choose|t: int| 0 <= t < NUM_CLASSES && (#[trigger] old(self).active@[t])@.contains(x);
                assert(old(self).ring_member_ok(t, x));
                assert(hm.active@[t]@.contains(x));
                assert(hm.in_some_ring(x));
            }
        }
        self.ring_push(sc, m);
        write_u64(mem, off, m as u64 + 1);
        let ghost m1 = mem@;
        mem[off + 12] = 0;
        mem[off + 13] = 255;
        mem[off + units * UNIT - 4] = 0;
        proof {
            assert forall|j: int| off <= j < off + 8 implies mem@[j] == m1[j] by {}
            assert forall|k: int| 0 <= k < old(mem)@.len() && !(off <= k < off + 8) && k != off + 12 && k != off + 13
                && k != off + (class_units(sc as int) + 1) * UNIT - 4 implies #[trigger] mem@[k] == old(mem)@[k] by {
                assert(mem@[k] == m1[k]);
            }
        }
        m
    }

    /// Donates the memory `mem`, which starts at address `base`: it is
    /// cleared and, from its first 16-aligned address to its last, cut into
    /// groups (see `donated`). Each group gets a record (see
    /// `donated_record`), named in its header by its index plus one, its
    /// index byte 255, and joins the tail of its class's ring. Returns the
    /// records, in the order of the groups.
    pub fn donate(&mut self, mem: &mut [u8], base: usize) -> (r: Vec<usize>)
        requires
            old(self).wf(),
            base != 0,
            base + old(mem)@.len() <= usize::MAX,
        ensures
            final(self).wf(),
            final(mem)@.len() == old(mem)@.len(),
            ({
                let len = old(mem)@.len() as int;
                let a0 = if base % 16 == 0 { base as int } else { base + (16 - base % 16) };
                let b = (base + len) - (base + len) % 16;
                let gs = if len == 0 { Seq::<(int, int)>::empty() } else { donated(a0, b, 47) };
                groups_done(*old(self), *final(self), final(mem)@, gs, r@, base as int)
            }),
            final(self).metas@.len() >= old(self).metas@.len(),
            forall|k: int| 0 <= k < old(self).metas@.len() && !r@.contains(k as usize) ==>
                #[trigger] final(self).metas@[k] == old(self).metas@[k],
            final(self).usage_by_class@ == old(self).usage_by_class@,
            final(self).counters_kept(old(self)),
            final(self).mmap_counter == old(self).mmap_counter,
    {
        let len = mem.len();
        let ghost gs0 = if len == 0 { Seq::<(int, int)>::empty() } else {
            donated((if base % 16 == 0 { base as int } else { base + (16 - base % 16) }), (base + len) - (base + len) % 16, 47)
        };
        let mut k: usize = 0;
        while k < len
            invariant
                k <= len == mem@.len(),
                forall|j: int| 0 <= j < k ==> #[trigger] mem@[j] == 0,
            decreases len - k,
        {
            mem[k] = 0;
            k = k + 1;
        }
        let mut ids: Vec<usize> = Vec::new();
        let ghost h0 = *self;
        proof {
            lemma_groups_start(h0, mem@, base as int);
        }
        if len == 0 {
            proof {
                lemma_groups_lower(h0, *self, mem@, Seq::empty(), ids@, base as int, base as int, 48, base as int, 0);
                lemma_groups_finish(h0, *self, mem@, Seq::empty(), ids@, base as int, base as int, 0);
            }
            return ids;
        }
        let rem = base % UNIT;
        if rem != 0 && base > usize::MAX - UNIT {
            proof {
                assert(gs0 == Seq::<(int, int)>::empty());
                lemma_groups_lower(h0, *self, mem@, Seq::empty(), ids@, base as int, base as int, 48, base as int, 0);
                lemma_groups_finish(h0, *self, mem@, Seq::empty(), ids@, base as int, base as int, 0);
            }
            return ids;
        }
        let mut a = if rem == 0 { base } else { base + (UNIT - rem) };
        let b = (base + len) - (base + len) % UNIT;
        let mut sc: usize = 47;
        let ghost mut gs: Seq<(int, int)> = Seq::empty();
        proof {
            lemma_groups_lower(h0, *self, mem@, gs, ids@, base as int, base as int, 48, a as int, 47);
        }
        while sc > 0 && b > a
            invariant
                self.wf(),
                0 <= sc <= 47,
                base != 0,
                base <= a,
                b <= base + len,
                mem@.len() == len,
                len > 0,
                gs0 == gs + donated(a as int, b as int, sc as int),
                groups_ok(h0, *self, mem@, gs, ids@, base as int, a as int, sc as int),
                self.metas@.len() >= h0.metas@.len(),
                forall|k: int| 0 <= k < h0.metas@.len() && !ids@.contains(k as usize) ==>
                    #[trigger] self.metas@[k] == h0.metas@[k],
                self.usage_by_class@ == h0.usage_by_class@,
                self.counters_kept(&h0),
                self.mmap_counter == h0.mmap_counter,
                a % 16 == 0,
            decreases sc,
        {
            let units = size_class(sc) as usize + 1;
            proof {
                crate::meta::lemma_class_units_bounds(sc as int);
                lemma_donated_step(a as int, b as int, sc as int);
            }
            let next_sc = if sc < 4 { 0 } else { sc - 4 };
            if b - a >= units * UNIT {
                let ghost hb = *self;
                let ghost mb = mem@;
                let off = a - base;
                let m = self.donate_group(mem, off, a, sc);
                let ghost ids0 = ids@;
                ids.push(m);
                proof {
                    assert forall|k: int| 0 <= k < h0.metas@.len() && !ids@.contains(k as usize) implies
                        #[trigger] self.metas@[k] == h0.metas@[k] by {
                        assert(ids@[ids@.len() - 1] == m);
                        assert(k != m);
                        if ids0.contains(k as usize) {
                            let q = choose|q: int| 0 <= q < ids0.len() && ids0[q] == k as usize;
                            assert(ids@[q] == k as usize);
                        }
                        assert(hb.metas@[k] == h0.metas@[k]);
                    }
                    lemma_groups_step(h0, hb, *self, mb, mem@, gs, ids0, m, base as int, a as int, sc as int, next_sc as int);
                    gs = gs.push((a as int, sc as int));
                }
                a = a + units * UNIT;
            } else {
                proof {
                    lemma_groups_lower(h0, *self, mem@, gs, ids@, base as int, a as int, sc as int, a as int, next_sc as int);
                }
            }
            sc = next_sc;
        }
        proof {
            assert(donated(a as int, b as int, sc as int) == Seq::<(int, int)>::empty());
            assert(gs0 == gs);
            lemma_groups_finish(h0, *self, mem@, gs, ids@, base as int, a as int, sc as int);
        }
        ids
    }
}

} // verus!
