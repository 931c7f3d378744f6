//! Giving slots back: the bookkeeping of `free`, and what becomes of a
//! group once all of its slots are free.

use vstd::prelude::*;
use crate::meta::{Meta, low_mask, mask_through, size_class, class_units, get_stride, stride_of, UNIT};
use crate::heap::{Heap, NUM_CLASSES, masks_ok, stride_ok, free_bits, slot_free_in, record_live};
use crate::slot::{write_u16, u16_at, group_owner_at, offset_units_at, slot_index_at};

verus! {

/// What the caller is to do once a slot has been given back.
#[derive(Clone, Copy)]
pub enum FreeAction {
    /// Nothing more.
    Done,
    /// Unmap `len` bytes at `base`: the group that had them is gone.
    Unmap { base: usize, len: usize },
    /// The group that was carved out of the slot at `addr` is gone: give
    /// that slot back too.
    FreeSlot { addr: usize },
}

/// The bit of slot `idx` in a group's masks.
pub open spec fn slot_bit(idx: usize) -> u32 {
    1u32 << idx as u32
}

/// A slot bit within the group's slots is nonzero and inside its mask.
proof fn lemma_slot_bit(idx: u32, last: u32)
    by (bit_vector)
    requires
        idx <= last,
        last < 32,
    ensures
        (1u32 << idx) != 0,
        (1u32 << idx) & !(if last >= 31 { 0xffff_ffffu32 } else { ((2u32 << last) - 1u32) as u32 }) == 0,
        last == 0 ==> (1u32 << idx) == 1u32 && ((2u32 << last) - 1u32) as u32 == 1u32,
{
}

/// Marking a slot that is neither available nor freed as freed keeps the
/// masks disjoint and within the group's slots.
proof fn lemma_mark_freed(a: u32, f: u32, l: u32, s: u32)
    by (bit_vector)
    requires
        a & f == 0,
        (a | f) & !l == 0,
        s & (f | a) == 0,
        s & !l == 0,
    ensures
        a & (f | s) == 0,
        (a | (f | s)) & !l == 0,
        (f | a) & s == 0,
        ((f | a) | s) == (f | a) + s,
        s != 0 ==> s & (a | (f | s)) != 0,
{
}

/// Clears the header of the slot at `p` as `free` leaves it: the index
/// byte becomes 255 and the offset 0.
pub fn release_header(mem: &mut [u8], p: usize)
    requires
        4 <= p <= old(mem)@.len(),
    ensures
        final(mem)@.len() == old(mem)@.len(),
        final(mem)@[p - 3] == 255,
        u16_at(final(mem)@, p - 2) == 0,
        forall|k: int| 0 <= k < old(mem)@.len() && !(p - 3 <= k < p) ==> #[trigger] final(mem)@[k] == old(mem)@[k],
{
    mem[p - 3] = 255;
    write_u16(mem, p - 2, 0);
}

/// What freeing group `g` asks of the caller: unmapping its own mapping,
/// or giving back the slot it was carved out of.
pub open spec fn freed_group_action(g: Meta) -> FreeAction {
    if g.maplen_spec() > 0 {
        FreeAction::Unmap { base: g.mem, len: (g.maplen_spec() * 4096) as usize }
    } else {
        FreeAction::FreeSlot { addr: g.mem }
    }
}

/// Group record `g` after its freed slots among the active ones are made
/// available.
pub open spec fn activated(g: Meta) -> Meta {
    let act = low_mask(g.active_idx as u32);
    Meta { avail_mask: g.freed_mask & act, freed_mask: g.freed_mask & !act, ..g }
}

impl Heap {
    /// Slot `idx` of group `m` is in use: the group is live, the slot is
    /// one of its own and neither available nor freed, and a group outside
    /// the size classes is a freeable single slot.
    pub open spec fn live_slot(&self, m: usize, idx: usize) -> bool {
        let g = self.metas@[m as int];
        &&& m < self.metas@.len()
        &&& !self.free_metas@.contains(m)
        &&& g.mem != 0
        &&& idx <= g.last_idx_spec()
        &&& slot_bit(idx) & (g.freed_mask | g.avail_mask) == 0
        &&& (g.sizeclass_spec() < 48 || (g.last_idx_spec() == 0 && g.freeable_spec()))
    }

    /// Whether a group whose slots are all free may be freed: it must be
    /// freeable; one outside the size classes, one with a short stride,
    /// one without its own mapping, or one that is not alone in its ring
    /// may always go; the last mapped group of a bouncing class goes only
    /// when it is small (under 20 slots) against the class usage (at most
    /// a ninth of it).
    pub open spec fn free_allowed(&self, m: usize) -> bool {
        let g = self.metas@[m as int];
        let sc = g.sizeclass_spec();
        if !g.freeable_spec() {
            false
        } else if sc >= 48 {
            true
        } else if stride_of(g) < UNIT * class_units(sc as int) {
            true
        } else if g.maplen_spec() == 0 {
            true
        } else if self.active@[sc as int]@ != seq![m] {
            true
        } else if !self.bouncing(sc as int) {
            true
        } else {
            9 * (g.last_idx_spec() + 1) <= self.usage_by_class@[sc as int] && g.last_idx_spec() + 1 < 20
        }
    }

    /// Whether group `m`, all of whose slots are free, may be freed (see
    /// `free_allowed`).
    pub fn okay_to_free(&self, m: usize) -> (r: bool)
        requires
            self.wf(),
            m < self.metas@.len(),
        ensures
            r == self.free_allowed(m),
    {
        let g = self.metas[m];
        let sc = g.sizeclass();
        if !g.freeable() {
            return false;
        }
        if sc >= NUM_CLASSES {
            return true;
        }
        let stride = get_stride(&g);
        if stride < UNIT * size_class(sc) as usize {
            return true;
        }
        if g.maplen() == 0 {
            return true;
        }
        let alone = self.active[sc].len() == 1 && self.active[sc][0] == m;
        proof {
            if self.active@[sc as int]@.len() == 1 && self.active@[sc as int]@[0] == m {
                assert(self.active@[sc as int]@ =~= seq![m]);
            }
        }
        if !alone {
            return true;
        }
        if !self.is_bouncing(sc) {
            return true;
        }
        let cnt = g.last_idx() + 1;
        9 * cnt <= self.usage_by_class[sc] && cnt < 20
    }

    /// Whether ring `sc` holds group `m`.
    fn ring_has(&self, sc: usize, m: usize) -> (r: bool)
        requires
            self.wf(),
            sc < NUM_CLASSES,
        ensures
            r == self.active@[sc as int]@.contains(m),
    {
        let ring = &self.active[sc];
        let mut i: usize = 0;
        while i < ring.len()
            invariant
                sc < NUM_CLASSES,
                self.active@.len() == NUM_CLASSES,
                *ring == self.active@[sc as int],
                i <= ring@.len(),
                forall|k: int| 0 <= k < i ==> ring@[k] != m,
            decreases ring@.len() - i,
        {
            if ring[i] == m {
                assert(ring@[i as int] == m);
                return true;
            }
            i = i + 1;
        }
        false
    }

    /// The record of the slot being given back: the group whose header, at
    /// `base`, names record `stored - 1` (0 naming none), where the slot's
    /// header names index `idx`. It is refused (`None`) unless the record
    /// exists with its memory at `base` and slot `idx` is one of its slots
    /// in use (see `live_slot`); the caller is to treat a refusal as a
    /// corrupt heap.
    pub fn get_meta(&self, base: usize, stored: u64, idx: usize) -> (r: Option<usize>)
        requires
            self.wf(),
        ensures
            r matches Some(m) ==> m + 1 == stored && self.metas@[m as int].mem == base && self.live_slot(m, idx),
            r is None ==> stored == 0 || stored > self.metas@.len() || self.metas@[stored - 1].mem != base
                || !self.live_slot((stored - 1) as usize, idx),
    {
        if stored == 0 || stored > self.metas.len() as u64 || base == 0 {
            return None;
        }
        let m = (stored - 1) as usize;
        let g = self.metas[m];
        if g.mem != base {
            return None;
        }
        proof {
            assert(!self.free_metas@.contains(m)) by {
                if self.free_metas@.contains(m) {
                    let k = choose|k: int| 0 <= k < self.free_metas@.len() && self.free_metas@[k] == m;
                    assert(self.metas@[self.free_metas@[k] as int].is_zero());
                }
            }
        }
        if idx > g.last_idx() {
            return None;
        }
        if (1u32 << idx as u32) & (g.freed_mask | g.avail_mask) != 0 {
            return None;
        }
        if g.sizeclass() >= NUM_CLASSES && !(g.last_idx() == 0 && g.freeable()) {
            return None;
        }
        Some(m)
    }

    /// The quick way to give back slot `idx` of group `m`: when the group
    /// already has freed slots and this is not its last slot in use, the
    /// slot just joins the freed ones. Returns whether that was so; if not,
    /// nothing changes and `nontrivial_free` is to be used.
    pub fn free_fast(&mut self, m: usize, idx: usize) -> (done: bool)
        requires
            old(self).wf(),
            old(self).live_slot(m, idx),
        ensures
            final(self).wf(),
            ({
                let g = old(self).metas@[m as int];
                let mask = g.freed_mask | g.avail_mask;
                done == !(g.freed_mask == 0 || mask + slot_bit(idx) == low_mask(g.last_idx_spec() as u32))
            }),
            done ==> final(self).metas@ == old(self).metas@.update(m as int,
                Meta { freed_mask: old(self).metas@[m as int].freed_mask | slot_bit(idx), ..old(self).metas@[m as int] }),
            done ==> slot_free_in(final(self), m, idx),
            !done ==> final(self).metas@ == old(self).metas@,
            final(self).active@ == old(self).active@,
            final(self).free_metas@ == old(self).free_metas@,
            final(self).usage_by_class@ == old(self).usage_by_class@,
            final(self).unmap_seq@ == old(self).unmap_seq@,
            final(self).bounces@ == old(self).bounces@,
            final(self).seq == old(self).seq,
            final(self).mmap_counter == old(self).mmap_counter,
    {
        let mut g = self.metas[m];
        let last = g.last_idx();
        let bit = 1u32 << idx as u32;
        let all = mask_through(last as u32);
        let freed = g.freed_mask;
        let mask = freed | g.avail_mask;
        proof {
            lemma_slot_bit(idx as u32, last as u32);
            lemma_mark_freed(g.avail_mask, freed, low_mask(last as u32), bit);
        }
        if freed == 0 || mask + bit == all {
            return false;
        }
        g.freed_mask = freed | bit;
        self.metas.set(m, g);
        proof {
            assert(masks_ok(g));
            assert(stride_ok(g)) by {
                let og = old(self).metas@[m as int];
                assert(stride_ok(og));
                crate::heap::lemma_free_bits(og.avail_mask, og.freed_mask);
            }
            assert(forall|k: int| 0 <= k < self.metas@.len() ==> stride_ok(#[trigger] self.metas@[k]));
            assert forall|t: int, x: usize| 0 <= t < NUM_CLASSES && #[trigger] self.active@[t]@.contains(x) implies
                self.ring_member_ok(t, x) by {
                assert(old(self).ring_member_ok(t, x));
            }
            assert(forall|k: int| 0 <= k < self.metas@.len() ==> masks_ok(#[trigger] self.metas@[k]));
            assert forall|k: int| 0 <= k < self.free_metas@.len() implies self.metas@[#[trigger] self.free_metas@[k] as int].is_zero() by {
                assert(self.free_metas@[k] != m);
            }
        }
        true
    }

    /// Gives back what is left of group `m` once all its slots are free and
    /// it is in no ring: its slots stop counting toward its class usage
    /// (saturating at 0); a group with its own mapping has it unmapped, the
    /// unmap being recorded after the sequence moves on; a carved group
    /// gives its slot back. The record is cleared and freed.
    fn free_group(&mut self, m: usize) -> (r: FreeAction)
        requires
            old(self).wf(),
            m < old(self).metas@.len(),
            !old(self).in_some_ring(m),
            !old(self).free_metas@.contains(m),
        ensures
            final(self).wf(),
            ({
                let g = old(self).metas@[m as int];
                let sc = g.sizeclass_spec() as int;
                &&& r == freed_group_action(g)
                &&& final(self).usage_by_class@ == (if sc < 48 {
                        old(self).usage_by_class@.update(sc, old(self).usage_by_class@[sc].saturating_sub((g.last_idx_spec() + 1) as usize))
                    } else {
                        old(self).usage_by_class@
                    })
                &&& g.maplen_spec() > 0 ==> final(self).unmap_counted(old(self), sc)
                &&& g.maplen_spec() == 0 ==> final(self).seq == old(self).seq && final(self).unmap_seq@ == old(self).unmap_seq@
            }),
            final(self).metas@ == old(self).metas@.update(m as int, final(self).metas@[m as int]),
            final(self).metas@[m as int].is_zero(),
            final(self).free_metas@ == old(self).free_metas@.push(m),
            final(self).active@ == old(self).active@,
            final(self).bounces@ == old(self).bounces@,
            final(self).mmap_counter == old(self).mmap_counter,
    {
        let g = self.metas[m];
        let sc = g.sizeclass();
        if sc < NUM_CLASSES {
            let u = self.usage_by_class[sc];
            self.usage_by_class.set(sc, u.saturating_sub(g.last_idx() + 1));
        }
        let ml = g.maplen();
        let r = if ml > 0 {
            self.step_seq();
            self.record_seq(sc);
            let b = g.bitfields;
            assert(b / 4096 * 4096 <= b) by (nonlinear_arith);
            FreeAction::Unmap { base: g.mem, len: ml * 4096 }
        } else {
            FreeAction::FreeSlot { addr: g.mem }
        };
        self.free_meta(m);
        r
    }

    /// Gives back slot `idx` of group `m` under the lock. If that frees the
    /// whole group and it may go (`free_allowed`), it leaves its ring (the
    /// next group, if it was the head, has its freed slots activated) and
    /// is freed (see `free_group`). Otherwise the slot joins the freed ones,
    /// and a group that was wholly in use and outside its ring rejoins it.
    pub fn nontrivial_free(&mut self, m: usize, idx: usize) -> (r: FreeAction)
        requires
            old(self).wf(),
            old(self).live_slot(m, idx),
        ensures
            final(self).wf(),
            final(self).metas@.len() == old(self).metas@.len(),
            final(self).bounces@ == old(self).bounces@,
            final(self).mmap_counter == old(self).mmap_counter,
            slot_free_in(final(self), m, idx),
            ({
                let g = old(self).metas@[m as int];
                let sc = g.sizeclass_spec() as int;
                let mask = g.freed_mask | g.avail_mask;
                if mask + slot_bit(idx) == low_mask(g.last_idx_spec() as u32) && old(self).free_allowed(m) {
                    &&& r == freed_group_action(g)
                    &&& !final(self).in_some_ring(m)
                    &&& final(self).metas@[m as int].is_zero()
                    &&& final(self).free_metas@ == old(self).free_metas@.push(m)
                    &&& sc < 48 ==> final(self).usage_by_class@ == old(self).usage_by_class@.update(sc,
                        old(self).usage_by_class@[sc].saturating_sub((g.last_idx_spec() + 1) as usize))
                    &&& sc >= 48 ==> final(self).usage_by_class@ == old(self).usage_by_class@
                    &&& g.maplen_spec() > 0 ==> final(self).unmap_counted(old(self), sc)
                    &&& g.maplen_spec() == 0 ==> final(self).seq == old(self).seq && final(self).unmap_seq@ == old(self).unmap_seq@
                    &&& forall|t: int| 0 <= t < NUM_CLASSES && t != sc ==> #[trigger] final(self).active@[t] == old(self).active@[t]
                    &&& sc < 48 ==> forall|x: usize| #[trigger] final(self).active@[sc]@.contains(x) <==>
                        (old(self).active@[sc]@.contains(x) && x != m)
                    &&& (sc < 48 && old(self).active@[sc]@.contains(m)) ==> exists|k: int|
                        0 <= k < old(self).active@[sc]@.len() && old(self).active@[sc]@[k] == m
                            && #[trigger] final(self).active@[sc]@ == old(self).active@[sc]@.remove(k)
                    &&& !(sc < 48 && old(self).active@[sc]@.contains(m)) ==> final(self).active@ == old(self).active@
                    &&& forall|k: int| 0 <= k < old(self).metas@.len() && k != m ==> {
                        ||| #[trigger] final(self).metas@[k] == old(self).metas@[k]
                        ||| (sc < 48 && old(self).active@[sc]@[0] == m && final(self).active@[sc]@.len() > 0
                            && k == final(self).active@[sc]@[0] && final(self).metas@[k] == activated(old(self).metas@[k]))
                    }
                } else {
                    &&& r is Done
                    &&& final(self).metas@ == old(self).metas@.update(m as int, Meta { freed_mask: g.freed_mask | slot_bit(idx), ..g })
                    &&& final(self).free_metas@ == old(self).free_metas@
                    &&& final(self).usage_by_class@ == old(self).usage_by_class@
                    &&& final(self).seq == old(self).seq
                    &&& final(self).unmap_seq@ == old(self).unmap_seq@
                    &&& if mask == 0 && sc < 48 && !old(self).active@[sc]@.contains(m) {
                        &&& final(self).active@[sc]@ == old(self).active@[sc]@.push(m)
                        &&& forall|t: int| 0 <= t < NUM_CLASSES && t != sc ==> #[trigger] final(self).active@[t] == old(self).active@[t]
                    } else {
                        final(self).active@ == old(self).active@
                    }
                }
            }),
    {
        let g = self.metas[m];
        let sc = g.sizeclass();
        let last = g.last_idx();
        let bit = 1u32 << idx as u32;
        let mask = g.freed_mask | g.avail_mask;
        let all = mask_through(last as u32);
        proof {
            lemma_slot_bit(idx as u32, last as u32);
            lemma_mark_freed(g.avail_mask, g.freed_mask, low_mask(last as u32), bit);
        }
        if mask + bit == all && self.okay_to_free(m) {
            let ghost h0 = *self;
            if sc < NUM_CLASSES && self.ring_has(sc, m) {
                let was_head = self.active[sc][0] == m;
                self.ring_remove(sc, m);
                if was_head && self.active[sc].len() > 0 {
                    let h = self.active[sc][0];
                    proof {
                        assert(self.active@[sc as int]@.contains(h));
                        assert(self.ring_member_ok(sc as int, h));
                    }
                    self.activate_group(h);
                }
            }
            proof {
                assert(!self.in_some_ring(m)) by {
                    if self.in_some_ring(m) {
                        let t = choose|t: int| 0 <= t < NUM_CLASSES && (#[trigger] self.active@[t])@.contains(m);
                        assert(self.ring_member_ok(t, m));
                        assert(h0.ring_member_ok(t, m) || t == sc);
                    }
                }
            }
            return self.free_group(m);
        }
        if mask == 0 && sc < NUM_CLASSES && !self.ring_has(sc, m) {
            self.ring_push(sc, m);
        }
        proof {
            // A group with a short stride has one slot, which goes back
            // with the whole group above.
            if g.sizeclass_spec() < 48 && stride_of(g) < UNIT * class_units(g.sizeclass_spec() as int) {
                assert(stride_ok(old(self).metas@[m as int]));
                crate::heap::lemma_free_bits(g.avail_mask, g.freed_mask);
                assert(g.last_idx_spec() == 0);
                assert(idx == 0);
                assert(old(self).free_allowed(m));
                assert(false);
            }
        }
        let mut g2 = self.metas[m];
        g2.freed_mask = g2.freed_mask | bit;
        self.metas.set(m, g2);
        proof {
            assert(masks_ok(g2));
            assert(stride_ok(g2));
            assert(forall|k: int| 0 <= k < self.metas@.len() ==> stride_ok(#[trigger] self.metas@[k]));
            assert forall|t: int, x: usize| 0 <= t < NUM_CLASSES && #[trigger] self.active@[t]@.contains(x) implies
                self.ring_member_ok(t, x) by {
                assert(old(self).active@[t]@.contains(x) || x == m);
                if x != m {
                    assert(old(self).ring_member_ok(t, x));
                }
            }
            assert(forall|k: int| 0 <= k < self.metas@.len() ==> masks_ok(#[trigger] self.metas@[k]));
            assert forall|k: int| 0 <= k < self.free_metas@.len() implies self.metas@[#[trigger] self.free_metas@[k] as int].is_zero() by {
                assert(self.free_metas@[k] != m);
            }
        }
        FreeAction::Done
    }
}

/// Where the group holding the slot at address `p` starts, the slot's
/// header putting it `off` units after the group's storage: `p - 16 *
/// off - 16`, or `None` when that would lie below address 0.
pub fn group_base(p: usize, off: usize) -> (r: Option<usize>)
    ensures
        p >= UNIT * off + UNIT ==> r == Some((p - UNIT * off - UNIT) as usize),
        p < UNIT * off + UNIT ==> r is None,
{
    if off > (usize::MAX - UNIT) / UNIT {
        return None;
    }
    let d = UNIT * off + UNIT;
    if p < d {
        return None;
    }
    Some(p - d)
}


/// A block framed at offset `p` into the memory `mem` of a group at address
/// `base` whose header names record `m` (`write_group_owner`), with the
/// offset header `enframe` writes, leads back to its group: `group_base`
/// of its address and recorded offset is `base`, the owner word names `m`,
/// the index is the slot's, and so `get_meta` cannot refuse it while the
/// slot is in use and the record's memory is at `base`.
pub proof fn law_framed_block_locates(heap: &Heap, mem: Seq<u8>, base: int, p: int, m: usize, idx: usize)
    requires
        group_owner_at(mem) == m + 1,
        p >= UNIT,
        p % 16 == 0,
        offset_units_at(mem, p) == (p - UNIT) / (UNIT as int),
        slot_index_at(mem, p) == idx,
    ensures
        (base + p) - UNIT * offset_units_at(mem, p) - UNIT == base,
        group_owner_at(mem) == m + 1,
        slot_index_at(mem, p) == idx,
        heap.live_slot(m, idx) && heap.metas@[m as int].mem == base ==> {
            &&& group_owner_at(mem) != 0
            &&& group_owner_at(mem) <= heap.metas@.len()
            &&& heap.metas@[group_owner_at(mem) - 1].mem == base
            &&& heap.live_slot((group_owner_at(mem) - 1) as usize, idx)
        },
{
}

} // verus!
