//! Resizing a slot: in place when the slot and its class allow it, by
//! remapping a group of one slot with its own mapping, or by moving.

use vstd::prelude::*;
use crate::meta::{Meta, stride_of, stride_defined, get_stride, size_to_class, is_least_class, class_units, class_for,
    lemma_least_class_unique,
    size_overflows, overflows, UNIT, IB, MMAP_THRESHOLD};
use crate::slot::{slot_index_at, nominal_size_at, reserved_at, get_slot_index, get_nominal_size, set_size, read_u32};
use crate::group::page_round;
use crate::heap::{Heap, NUM_CLASSES, masks_ok};

verus! {

/// How a slot is to be resized.
#[derive(Clone, Copy)]
pub enum ReallocPlan {
    /// The slot now records the new size; it stays where it is.
    Resized,
    /// The group's own mapping is to become `needed` bytes long (it may
    /// already be); the slot sits `base` bytes into the group's storage. If
    /// the mapping cannot be resized, move instead, copying `copy` bytes.
    Remap { needed: usize, base: usize, copy: usize },
    /// A new slot is needed: the first `copy` bytes move there and this
    /// slot is freed.
    Move { copy: usize },
}

/// Where slot `idx` of a group with slots `stride` bytes apart starts, from
/// the start of the group.
pub open spec fn slot_start(stride: int, idx: int) -> int {
    UNIT + stride * idx
}

/// Where the usable bytes of slot `idx` end.
pub open spec fn slot_end(stride: int, idx: int) -> int {
    UNIT + stride * idx + stride - IB
}

/// The length a group of one slot with its own mapping needs to hold `n`
/// bytes `base` bytes into its storage: whole pages.
pub open spec fn remap_length(n: nat, base: nat) -> nat {
    page_round((n + base + UNIT + IB) as nat)
}

/// What a `realloc` call starts with.
#[derive(Clone, Copy)]
pub enum ReallocStart {
    /// No block given: allocate `n` bytes.
    Allocate,
    /// A size of 0: free the block and return none.
    Release,
    /// Too large a size: fail with out of memory.
    TooLarge,
    /// Resize the block (see `realloc_in_group`).
    Resize,
}

/// How `realloc` of the block at `p` (0 for none) to `n` bytes starts: no
/// block means allocating; then a size of 0 means freeing; then a size
/// that cannot be served fails; anything else resizes.
pub fn realloc_start(p: usize, n: usize) -> (r: ReallocStart)
    ensures
        p == 0 ==> r is Allocate,
        p != 0 && n == 0 ==> r is Release,
        p != 0 && n != 0 && overflows(n as nat) ==> r is TooLarge,
        p != 0 && n != 0 && !overflows(n as nat) ==> r is Resize,
{
    if p == 0 {
        return ReallocStart::Allocate;
    }
    if n == 0 {
        return ReallocStart::Release;
    }
    if size_overflows(n) {
        return ReallocStart::TooLarge;
    }
    ReallocStart::Resize
}

/// Whether the slot at `p` in the memory `mem` of group `g` is framed as
/// the allocator frames slots: the group's slots are of a known size, and
/// `p` lies within its slot, whose end and recorded tail fit the memory
/// (what `realloc_in_group` and `malloc_usable_size` take for granted).
pub open spec fn framed_slot(g: Meta, mem: Seq<u8>, p: int) -> bool {
    let idx = slot_index_at(mem, p) as int;
    let stride = stride_of(g) as int;
    &&& stride_defined(g)
    &&& 8 <= p <= mem.len()
    &&& slot_start(stride, idx) <= p <= slot_end(stride, idx)
    &&& slot_end(stride, idx) + IB <= mem.len()
    &&& reserved_at(mem, p, slot_end(stride, idx)) <= slot_end(stride, idx) - p
}

/// Checks `framed_slot`: a slot that fails it is not one the allocator
/// handed out, and the caller is to treat the heap as corrupt.
pub fn is_framed_slot(g: &Meta, mem: &[u8], p: usize) -> (r: bool)
    ensures
        r == framed_slot(*g, mem@, p as int),
{
    proof {
        vstd::slice::axiom_spec_len(mem);
    }
    if !(g.sizeclass() < NUM_CLASSES || (g.last_idx() == 0 && g.maplen() > 0)) {
        return false;
    }
    if p < 8 || p > mem.len() {
        return false;
    }
    let idx = get_slot_index(mem, p);
    let stride = get_stride(g);
    let sidx = match stride.checked_mul(idx) {
        Some(v) => v,
        None => {
            proof {
                assert(stride * idx >= 0) by (nonlinear_arith) requires stride >= 0, idx >= 0;
            }
            return false;
        }
    };
    if mem.len() < UNIT || sidx > mem.len() - UNIT {
        return false;
    }
    let start = UNIT + sidx;
    if stride > mem.len() - start {
        return false;
    }
    let end = start + stride - IB;
    if start > p || p > end {
        return false;
    }
    let code = mem[p - 3] / 32;
    let reserved = if code >= 5 { read_u32(mem, end - 4) as usize } else { code as usize };
    reserved <= end - p
}

/// Whether resizing a group's own mapping to `needed` bytes asks for a
/// remapping: not when the mapping already has that length.
pub fn remap_needed(g: &Meta, needed: usize) -> (r: bool)
    ensures
        r == (g.maplen_spec() * 4096 != needed),
{
    let ml = g.maplen();
    if ml > usize::MAX / 4096 {
        return true;
    }
    ml * 4096 != needed
}

/// Decides how to resize the slot at `p` in the memory `mem` of group `g`
/// to `n` bytes (not 0, not too large). The slot keeps its place, with the
/// new size recorded, when `n` fits before its end, is below the mapping
/// threshold, and its least class is at most one below the group's. A
/// group of one slot outside the size classes may remap its mapping for a
/// size at or above the threshold. Otherwise the slot moves, with as many
/// bytes as both sizes hold.
pub fn realloc_in_group(g: &Meta, mem: &mut [u8], p: usize, n: usize) -> (r: ReallocPlan)
    requires
        stride_defined(*g),
        g.sizeclass_spec() < 48 || g.sizeclass_spec() == 63,
        g.sizeclass_spec() < 48 ==> stride_of(*g) < 0x1_0000_0000,
        n > 0,
        !overflows(n as nat),
        8 <= p,
        ({
            let idx = slot_index_at(old(mem)@, p as int) as int;
            let stride = stride_of(*g) as int;
            &&& slot_start(stride, idx) <= p <= slot_end(stride, idx)
            &&& slot_end(stride, idx) + IB <= old(mem)@.len()
            &&& reserved_at(old(mem)@, p as int, slot_end(stride, idx)) <= slot_end(stride, idx) - p
            &&& n + (p - slot_start(stride, idx)) + UNIT + IB + 4095 <= usize::MAX
        }),
    ensures
        final(mem)@.len() == old(mem)@.len(),
        ({
            let idx = slot_index_at(old(mem)@, p as int) as int;
            let stride = stride_of(*g) as int;
            let start = slot_start(stride, idx);
            let end = slot_end(stride, idx);
            let old_size = nominal_size_at(old(mem)@, p as int, end);
            let copy = if n < old_size { n as int } else { old_size };
            if n <= end - p && n < MMAP_THRESHOLD && class_for(n as nat) + 1 >= g.sizeclass_spec() {
                &&& r is Resized
                &&& nominal_size_at(final(mem)@, p as int, end) == n
                &&& slot_index_at(final(mem)@, p as int) == idx
                &&& forall|k: int| p <= k < p + n ==> #[trigger] final(mem)@[k] == old(mem)@[k]
                &&& forall|k: int| 0 <= k < old(mem)@.len() && k != p - 3 && !(p <= k < end) ==>
                    #[trigger] final(mem)@[k] == old(mem)@[k]
            } else {
                &&& final(mem)@ == old(mem)@
                &&& if g.sizeclass_spec() >= 48 && n >= MMAP_THRESHOLD {
                    r == (ReallocPlan::Remap {
                        needed: remap_length(n as nat, (p - start) as nat) as usize,
                        base: (p - start) as usize,
                        copy: copy as usize,
                    })
                } else {
                    r == (ReallocPlan::Move { copy: copy as usize })
                }
            }
        }),
{
    let idx = get_slot_index(mem, p);
    let stride = get_stride(g);
    proof {
        vstd::slice::axiom_spec_len(&*old(mem));
        assert(stride * idx + stride == stride * (idx + 1)) by (nonlinear_arith);
        assert(stride * idx >= 0) by (nonlinear_arith) requires stride >= 0, idx >= 0;
    }
    let start = UNIT + stride * idx;
    let end = start + stride - IB;
    let old_size = get_nominal_size(mem, p, end);
    let avail = end - p;
    let copy = if n < old_size { n } else { old_size };
    if n <= avail && n < MMAP_THRESHOLD {
        let j = size_to_class(n);
        proof {
            let c = class_for(n as nat);
            assert(is_least_class(j as int, n as nat));
            assert(is_least_class(c, n as nat));
            lemma_least_class_unique(j as int, c, n as nat);
        }
        if j + 1 >= g.sizeclass() {
            set_size(mem, p, end, n);
            return ReallocPlan::Resized;
        }
    }
    if g.sizeclass() >= 48 && n >= MMAP_THRESHOLD {
        let base = p - start;
        let needed = (n + base + UNIT + IB + 4095) & !4095usize;
        proof {
            let t = (n + base + UNIT + IB + 4095) as usize;
            crate::bits::lemma_fields_usize(t);
        }
        return ReallocPlan::Remap { needed, base, copy };
    }
    ReallocPlan::Move { copy }
}

/// Frames the slot of a remapped group of one slot: the mapping now holds
/// `needed` bytes and the slot sits `base` bytes into its storage. The
/// byte after the slot's usable end is cleared and the slot records `n`
/// bytes. Returns the slot's position.
pub fn frame_remapped(mem: &mut [u8], base: usize, needed: usize, n: usize) -> (p: usize)
    requires
        needed == remap_length(n as nat, base as nat),
        needed <= old(mem)@.len(),
    ensures
        p == UNIT + base,
        final(mem)@.len() == old(mem)@.len(),
        final(mem)@[needed - IB] == 0,
        nominal_size_at(final(mem)@, p as int, needed - IB) == n,
        forall|k: int| 0 <= k < old(mem)@.len() && k != p - 3 && !(p <= k <= needed - IB) ==>
            #[trigger] final(mem)@[k] == old(mem)@[k],
{
    let end = needed - IB;
    mem[end] = 0;
    let p = UNIT + base;
    set_size(mem, p, end, n);
    p
}

/// The size the slot at `p` in the memory `mem` of group `g` was handed
/// out with.
pub fn malloc_usable_size(g: &Meta, mem: &[u8], p: usize) -> (r: usize)
    requires
        stride_defined(*g),
        8 <= p,
        ({
            let idx = slot_index_at(mem@, p as int) as int;
            let stride = stride_of(*g) as int;
            &&& slot_start(stride, idx) <= p <= slot_end(stride, idx)
            &&& slot_end(stride, idx) + IB <= mem@.len()
            &&& reserved_at(mem@, p as int, slot_end(stride, idx)) <= slot_end(stride, idx) - p
        }),
    ensures
        r == nominal_size_at(mem@, p as int,
            slot_end(stride_of(*g) as int, slot_index_at(mem@, p as int) as int)),
{
    let idx = get_slot_index(mem, p);
    let stride = get_stride(g);
    proof {
        vstd::slice::axiom_spec_len(mem);
        assert(stride * idx >= 0) by (nonlinear_arith) requires stride >= 0, idx >= 0;
    }
    let start = UNIT + stride * idx;
    let end = start + stride - IB;
    get_nominal_size(mem, p, end)
}

/// Whether fresh slots of group `g` are known to be all zero: those of a
/// group outside the size classes, which has a mapping of its own, or of a
/// group whose stride is below its class's slot size.
pub fn is_allzero(g: &Meta) -> (r: bool)
    requires
        stride_defined(*g),
    ensures
        r == (g.sizeclass_spec() >= 48 || stride_of(*g) < UNIT * class_units(g.sizeclass_spec() as int)),
{
    let sc = g.sizeclass();
    if sc >= NUM_CLASSES {
        return true;
    }
    proof {
        crate::meta::lemma_class_units_bounds(sc as int);
    }
    get_stride(g) < UNIT * crate::meta::size_class(sc) as usize
}

impl Heap {
    /// Records that group `m`'s own mapping now starts at `mem` and is
    /// `needed` bytes long.
    pub fn remapped(&mut self, m: usize, mem: usize, needed: usize)
        requires
            old(self).wf(),
            m < old(self).metas@.len(),
            !old(self).free_metas@.contains(m),
            old(self).metas@[m as int].sizeclass_spec() >= 48,
            mem != 0,
            mem % 16 == 0,
        ensures
            final(self).wf(),
            ({
                let g = old(self).metas@[m as int];
                let h = final(self).metas@[m as int];
                &&& final(self).metas@ == old(self).metas@.update(m as int, h)
                &&& h.mem == mem
                &&& h.maplen_spec() == (((needed / 4096) as usize) << 12usize) / 4096
                &&& h.last_idx_spec() == g.last_idx_spec()
                &&& h.freeable_spec() == g.freeable_spec()
                &&& h.sizeclass_spec() == g.sizeclass_spec()
                &&& h.avail_mask == g.avail_mask
                &&& h.freed_mask == g.freed_mask
                &&& h.active_idx == g.active_idx
            }),
            final(self).active@ == old(self).active@,
            final(self).free_metas@ == old(self).free_metas@,
            final(self).usage_by_class@ == old(self).usage_by_class@,
            final(self).unmap_seq@ == old(self).unmap_seq@,
            final(self).bounces@ == old(self).bounces@,
            final(self).seq == old(self).seq,
            final(self).mmap_counter == old(self).mmap_counter,
    {
        let mut g = self.metas[m];
        g.mem = mem;
        g.set_maplen(needed / 4096);
        self.metas.set(m, g);
        proof {
            assert(masks_ok(g));
            assert(forall|k: int| 0 <= k < self.metas@.len() ==> crate::heap::stride_ok(#[trigger] self.metas@[k]));
            assert forall|t: int, x: usize| 0 <= t < NUM_CLASSES && #[trigger] self.active@[t]@.contains(x) implies
                self.ring_member_ok(t, x) by {
                assert(old(self).ring_member_ok(t, x));
            }
            assert(forall|k: int| 0 <= k < self.metas@.len() ==> masks_ok(#[trigger] self.metas@[k]));
            assert forall|k: int| 0 <= k < self.free_metas@.len() implies self.metas@[#[trigger] self.free_metas@[k] as int].is_zero() by {
                assert(self.free_metas@[k] != m);
            }
        }
    }
}

/// Blocks in different slots of one group do not overlap: slot `i` spans
/// `[slot_start(stride, i), slot_end(stride, i))`, and the spans of two
/// different slots are disjoint (`enframe` keeps each block within its
/// slot's span).
pub proof fn law_slots_disjoint(stride: int, i: int, k: int)
    requires
        stride >= UNIT,
        0 <= i,
        0 <= k,
        i != k,
    ensures
        slot_end(stride, i) <= slot_start(stride, k) || slot_end(stride, k) <= slot_start(stride, i),
{
    if i < k {
        assert(stride * i + stride <= stride * k) by (nonlinear_arith) requires i < k, stride >= 0;
    } else {
        assert(stride * k + stride <= stride * i) by (nonlinear_arith) requires k < i, stride >= 0;
    }
}

/// Two live blocks of one group, each framed within its slot as `enframe`
/// places it (at a multiple of 16 into the group's memory, holding its
/// size before the slot's end): both start at addresses that are
/// multiples of 16, and, in different slots, their bytes do not overlap.
pub proof fn law_live_blocks(heap: &Heap, m: usize, stride: int, i: int, p: int, n: int, k: int, q: int, nq: int)
    requires
        heap.wf(),
        m < heap.metas@.len(),
        stride >= UNIT,
        0 <= i,
        0 <= k,
        i != k,
        0 <= n,
        0 <= nq,
        p % 16 == 0,
        q % 16 == 0,
        slot_start(stride, i) <= p,
        p + n <= slot_end(stride, i),
        slot_start(stride, k) <= q,
        q + nq <= slot_end(stride, k),
    ensures
        (heap.metas@[m as int].mem + p) % 16 == 0,
        (heap.metas@[m as int].mem + q) % 16 == 0,
        p + n <= q || q + nq <= p,
{
    crate::malloc::law_block_address_aligned(heap, m, p);
    crate::malloc::law_block_address_aligned(heap, m, q);
    law_slots_disjoint(stride, i, k);
    assert(slot_start(stride, i) < slot_end(stride, i)) by (nonlinear_arith) requires stride >= UNIT;
    assert(slot_start(stride, k) < slot_end(stride, k)) by (nonlinear_arith) requires stride >= UNIT;
}

/// Writing into a block keeps its usable size: when the slot at `p`
/// ending at `end` records `n` bytes the way `set_size` leaves it (a
/// reserved tail recorded at the end only when it is 5 bytes or more), any
/// change to the block's own `n` bytes (such as `calloc` clearing it)
/// leaves `malloc_usable_size` reading `n`. With `enframe`, the in-place
/// path of `realloc_in_group` and `frame_remapped`, which all record the
/// requested size, the usable size of every block is at least (in fact
/// exactly) what was asked for.
pub proof fn law_usable_size_survives_writes(mem: Seq<u8>, mem2: Seq<u8>, p: int, end: int, n: int)
    requires
        3 <= p,
        p + n <= end <= mem.len(),
        0 <= n,
        mem2.len() == mem.len(),
        nominal_size_at(mem, p, end) == n,
        mem[p - 3] / 32 >= 5 ==> reserved_at(mem, p, end) >= 5,
        forall|k: int| 0 <= k < mem.len() && !(p <= k < p + n) ==> #[trigger] mem2[k] == mem[k],
    ensures
        nominal_size_at(mem2, p, end) == n,
        nominal_size_at(mem2, p, end) >= n,
{
    assert(mem2[p - 3] == mem[p - 3]);
    if mem[p - 3] / 32 >= 5 {
        assert(mem2[end - 4] == mem[end - 4]);
        assert(mem2[end - 3] == mem[end - 3]);
        assert(mem2[end - 2] == mem[end - 2]);
        assert(mem2[end - 1] == mem[end - 1]);
    }
}

/// The usable size of a slot framed for `n` bytes is `n`: whatever
/// `enframe` leaves at `p` for slot `idx` of a group with stride `stride`
/// (the slot index and the size recorded), `malloc_usable_size` reads
/// back.
pub proof fn law_usable_size_of_framed(mem: Seq<u8>, p: int, idx: nat, stride: int, n: nat)
    requires
        slot_index_at(mem, p) == idx,
        nominal_size_at(mem, p, UNIT + stride * idx + stride - IB) == n,
    ensures
        nominal_size_at(mem, p, slot_end(stride, slot_index_at(mem, p) as int)) == n,
{
}

} // verus!
