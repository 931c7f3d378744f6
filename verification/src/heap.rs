//! The allocator's bookkeeping: group records, the ring of active groups
//! of each size class, usage counts, and the accounting that notices
//! classes whose groups are mapped and unmapped over and over.
//!
//! Group records live in a vector and are named by their index. The ring
//! of active groups of a class is the sequence of their indices, its head
//! first; the group after the last is the head again.

use vstd::prelude::*;
use crate::meta::{Meta, low_mask, mask_through, size_class, class_units, stride_of, UNIT};

verus! {

/// Number of size classes with slots of their own.
pub const NUM_CLASSES: usize = 48;

/// Puts `m` at the tail of the ring (just before the head).
pub fn queue(ring: &mut Vec<usize>, m: usize)
    ensures
        final(ring)@ == old(ring)@.push(m),
{
    ring.push(m);
}

/// Takes `m` out of the ring. If `m` was the head, the group after it
/// becomes the head; the order of the others is kept.
pub fn dequeue(ring: &mut Vec<usize>, m: usize)
    requires
        old(ring)@.contains(m),
    ensures
        exists|k: int|
            0 <= k < old(ring)@.len() && old(ring)@[k] == m && #[trigger] final(ring)@ == old(ring)@.remove(k)
                && forall|t: int| 0 <= t < k ==> old(ring)@[t] != m,
{
    let mut k: usize = 0;
    while k < ring.len()
        invariant
            k <= ring@.len(),
            ring@ == old(ring)@,
            old(ring)@.contains(m),
            forall|t: int| 0 <= t < k ==> old(ring)@[t] != m,
        decreases ring@.len() - k,
    {
        if ring[k] == m {
            ring.remove(k);
            return;
        }
        k = k + 1;
    }
}

/// Taking out of a ring a group that was just put at its tail, and that
/// was not in it before, leaves the ring as it was.
pub proof fn law_dequeue_undoes_queue(s: Seq<usize>, m: usize)
    requires
        !s.contains(m),
    ensures
        forall|k: int| 0 <= k < s.push(m).len() && s.push(m)[k] == m
            && (forall|t: int| 0 <= t < k ==> s.push(m)[t] != m)
            ==> #[trigger] s.push(m).remove(k) == s,
{
    assert forall|k: int| 0 <= k < s.push(m).len() && s.push(m)[k] == m
        && (forall|t: int| 0 <= t < k ==> s.push(m)[t] != m)
        implies #[trigger] s.push(m).remove(k) == s by {
        if k < s.len() {
            assert(s[k] == m);
            assert(s.contains(m));
        }
        assert(s.push(m).remove(k) =~= s);
    }
}

/// Takes the head out of the ring and returns it; the next group becomes
/// the head.
pub fn dequeue_head(ring: &mut Vec<usize>) -> (r: Option<usize>)
    ensures
        old(ring)@.len() == 0 ==> r is None && final(ring)@ == old(ring)@,
        old(ring)@.len() > 0 ==> r == Some(old(ring)@[0]) && final(ring)@ == old(ring)@.subrange(1, old(ring)@.len() as int),
{
    if ring.len() == 0 {
        return None;
    }
    let m = ring.remove(0);
    assert(ring@ =~= old(ring)@.subrange(1, old(ring)@.len() as int));
    Some(m)
}

/// Makes the group after the head the new head.
pub fn advance(ring: &mut Vec<usize>)
    requires
        old(ring)@.len() > 0,
    ensures
        final(ring)@ == old(ring)@.subrange(1, old(ring)@.len() as int).push(old(ring)@[0]),
{
    let m = ring.remove(0);
    ring.push(m);
    assert(ring@ =~= old(ring)@.subrange(1, old(ring)@.len() as int).push(old(ring)@[0]));
}

/// The allocator's bookkeeping.
pub struct Heap {
    pub metas: Vec<Meta>,
    pub free_metas: Vec<usize>,
    pub active: Vec<Vec<usize>>,
    pub usage_by_class: Vec<usize>,
    pub unmap_seq: Vec<u8>,
    pub bounces: Vec<u8>,
    pub seq: u8,
    pub mmap_counter: u32,
}

/// The availability masks of a group are disjoint and name only its slots.
pub open spec fn masks_ok(g: Meta) -> bool {
    &&& g.avail_mask & g.freed_mask == 0
    &&& (g.avail_mask | g.freed_mask) & !low_mask(g.last_idx_spec() as u32) == 0
}

/// The slots of a group that are free to hand out: available or freed.
pub open spec fn free_bits(g: Meta) -> u32 {
    g.avail_mask | g.freed_mask
}

/// A group of a size class whose slots are shorter than the class's (a
/// group of one slot, mapped for the request that made it) is freeable
/// and has no free slot: it goes as soon as its slot is given back, so no
/// other request is ever handed that slot.
pub open spec fn stride_ok(g: Meta) -> bool {
    (g.sizeclass_spec() < 48 && stride_of(g) < UNIT * class_units(g.sizeclass_spec() as int))
        ==> free_bits(g) == 0 && g.freeable_spec()
}

/// Record `k` describes a group in use: it has memory and is not on the
/// free list.
pub open spec fn record_live(h: &Heap, k: int) -> bool {
    &&& 0 <= k < h.metas@.len()
    &&& h.metas@[k].mem != 0
    &&& !h.free_metas@.contains(k as usize)
}

/// Going from `h1` to `h2` takes no slot in use out of use: every group in
/// use in `h1` stays in use with its memory and fields, and its free slots
/// in `h2` are among those in `h1`.
pub open spec fn keeps_in_use(h1: &Heap, h2: &Heap) -> bool {
    &&& h2.metas@.len() >= h1.metas@.len()
    &&& forall|k: int| #[trigger] record_live(h1, k) ==> {
        &&& h2.metas@[k].mem == h1.metas@[k].mem
        &&& h2.metas@[k].bitfields == h1.metas@[k].bitfields
        &&& !h2.free_metas@.contains(k as usize)
        &&& free_bits(h2.metas@[k]) & !free_bits(h1.metas@[k]) == 0
    }
}

/// Slot `idx` of group `m` is not in use in `h`: the record describes no
/// group in use, or the slot is free.
pub open spec fn slot_free_in(h: &Heap, m: usize, idx: usize) -> bool {
    !record_live(h, m as int) || (1u32 << idx as u32) & free_bits(h.metas@[m as int]) != 0
}

/// Facts on masks: a mask lies within itself; lying within is transitive;
/// a bit met in a smaller mask is met in the larger.
proof fn lemma_within_masks(x: u32, y: u32, z: u32, b: u32)
    by (bit_vector)
    ensures
        x & !x == 0,
        (x & !y == 0 && y & !z == 0) ==> x & !z == 0,
        (b & x != 0 && x & !y == 0) ==> b & y != 0,
{
}

/// Nothing changes nothing in use.
pub proof fn lemma_keeps_refl(h: &Heap)
    ensures
        keeps_in_use(h, h),
{
    assert forall|k: int| #[trigger] record_live(h, k) implies
        free_bits(h.metas@[k]) & !free_bits(h.metas@[k]) == 0 by {
        lemma_within_masks(free_bits(h.metas@[k]), 0, 0, 0);
    }
}

/// Steps that take nothing out of use compose.
pub proof fn lemma_keeps_trans(h1: &Heap, h2: &Heap, h3: &Heap)
    requires
        keeps_in_use(h1, h2),
        keeps_in_use(h2, h3),
    ensures
        keeps_in_use(h1, h3),
{
    assert forall|k: int| #[trigger] record_live(h1, k) implies {
        &&& h3.metas@[k].mem == h1.metas@[k].mem
        &&& h3.metas@[k].bitfields == h1.metas@[k].bitfields
        &&& !h3.free_metas@.contains(k as usize)
        &&& free_bits(h3.metas@[k]) & !free_bits(h1.metas@[k]) == 0
    } by {
        assert(record_live(h2, k));
        lemma_within_masks(free_bits(h3.metas@[k]), free_bits(h2.metas@[k]), free_bits(h1.metas@[k]), 0);
    }
}

/// A slot free after a step that takes nothing out of use was free before.
pub proof fn lemma_free_pulls_back(h1: &Heap, h2: &Heap, m: usize, idx: usize)
    requires
        keeps_in_use(h1, h2),
        slot_free_in(h2, m, idx),
    ensures
        slot_free_in(h1, m, idx),
{
    if record_live(h1, m as int) {
        assert(record_live(h2, m as int));
        lemma_within_masks(free_bits(h2.metas@[m as int]), free_bits(h1.metas@[m as int]), 0, 1u32 << idx as u32);
    }
}

/// A step that changes only records not in use, and frees none in use,
/// takes nothing out of use.
pub proof fn lemma_keeps_from_frame(h1: &Heap, h2: &Heap)
    requires
        h2.metas@.len() >= h1.metas@.len(),
        forall|k: int| #[trigger] record_live(h1, k) ==> {
            &&& h2.metas@[k].mem == h1.metas@[k].mem
            &&& h2.metas@[k].bitfields == h1.metas@[k].bitfields
            &&& free_bits(h2.metas@[k]) & !free_bits(h1.metas@[k]) == 0
        },
        forall|x: usize| #[trigger] h2.free_metas@.contains(x) ==> h1.free_metas@.contains(x),
    ensures
        keeps_in_use(h1, h2),
{
}

/// A step that keeps every record and frees none takes nothing out of use.
pub proof fn lemma_keeps_same_records(h1: &Heap, h2: &Heap)
    requires
        h2.metas@ == h1.metas@,
        forall|x: usize| #[trigger] h2.free_metas@.contains(x) ==> h1.free_metas@.contains(x),
    ensures
        keeps_in_use(h1, h2),
{
    assert forall|k: int| #[trigger] record_live(h1, k) implies
        free_bits(h2.metas@[k]) & !free_bits(h1.metas@[k]) == 0 by {
        lemma_within_masks(free_bits(h1.metas@[k]), 0, 0, 0);
    }
}

/// A step that changes, among the records in use, none, and frees none in
/// use, takes nothing out of use; here the one record `m` it may change is
/// not in use.
pub proof fn lemma_keeps_fresh_change(h1: &Heap, h2: &Heap, m: usize)
    requires
        h2.metas@.len() >= h1.metas@.len(),
        !record_live(h1, m as int),
        forall|k: int| 0 <= k < h1.metas@.len() && k != m ==> #[trigger] h2.metas@[k] == h1.metas@[k],
        forall|x: usize| #[trigger] h2.free_metas@.contains(x) ==> h1.free_metas@.contains(x),
    ensures
        keeps_in_use(h1, h2),
{
    assert forall|k: int| #[trigger] record_live(h1, k) implies
        free_bits(h2.metas@[k]) & !free_bits(h1.metas@[k]) == 0 by {
        lemma_within_masks(free_bits(h1.metas@[k]), 0, 0, 0);
    }
}

/// Activating keeps the free slots; taking a slot out of the available
/// ones shrinks them.
pub(crate) proof fn lemma_free_shrinks(a: u32, f: u32, act: u32, a2: u32, first: u32, mask: u32)
    by (bit_vector)
    ensures
        ((f & act) | (f & !act)) & !(a | f) == 0,
        a2 | first == mask ==> (a2 | f) & !(mask | f) == 0,
{
}

/// Empty masks are disjoint and within any group.
proof fn lemma_empty_masks(l: u32)
    by (bit_vector)
    ensures
        is_lowest_bit(0u32, 0u32),
        0u32 & 0u32 == 0,
        (0u32 | 0u32) & !l == 0,
        0u32 & l == 0,
        0u32 & !l == 0,
{
}

/// A group has a free slot exactly when one of its masks is nonzero.
pub(crate) proof fn lemma_free_bits(a: u32, f: u32)
    by (bit_vector)
    ensures
        (a != 0 || f != 0) <==> (a | f) != 0,
{
}

/// A record with empty masks satisfies the mask invariant.
pub proof fn lemma_zero_masks_ok(g: Meta)
    requires
        g.avail_mask == 0,
        g.freed_mask == 0,
    ensures
        masks_ok(g),
{
    lemma_empty_masks(low_mask(g.last_idx_spec() as u32));
}

/// Activating a group keeps its masks disjoint and within its slots.
proof fn lemma_activate_masks(a: u32, f: u32, l: u32, act: u32)
    by (bit_vector)
    requires
        a & f == 0,
        (a | f) & !l == 0,
    ensures
        (f & act) & (f & !act) == 0,
        ((f & act) | (f & !act)) & !l == 0,
        (f & act) | (f & !act) == f,
{
}

/// Taking the lowest available slot: the bit taken is one of the mask's,
/// it is a single bit, and what is left is disjoint from it.
proof fn lemma_take_first(mask: u32, f: u32, l: u32, neg: u32, first: u32)
    by (bit_vector)
    requires
        mask & f == 0,
        (mask | f) & !l == 0,
        neg == (if !mask == 0xffff_ffffu32 { 0u32 } else { (!mask + 1u32) as u32 }),
        first == mask & neg,
    ensures
        first <= mask,
        first & mask == first,
        mask != 0 ==> first != 0,
        first & (first - 1u32) as u32 == 0,
        ((mask - first) as u32) & f == 0,
        (((mask - first) as u32) | f) & !l == 0,
        ((mask - first) as u32) & first == 0,
        first & ((mask - first) as u32) == 0,
        ((mask - first) as u32) | first == mask,
        first & l == first,
        mask == 0 ==> (mask - first) as u32 == 0,
        mask & ((first - 1u32) as u32) == 0,
{
}

/// A bit taken from the available slots, or from the freed slots being
/// activated, was among the group's available or freed slots.
proof fn lemma_taken_was_free(first: u32, a: u32, f: u32, act: u32)
    by (bit_vector)
    ensures
        first & a == first ==> first & (a | f) == first,
        first & (f & act) == first ==> first & (a | f) == first,
{
}

/// Advancing the head keeps the ring's members and their distinctness.
proof fn lemma_advance_members(s: Seq<usize>)
    requires
        s.len() > 0,
    ensures
        forall|x: usize| #[trigger] s.subrange(1, s.len() as int).push(s[0]).contains(x) <==> s.contains(x),
        s.no_duplicates() ==> s.subrange(1, s.len() as int).push(s[0]).no_duplicates(),
{
    let t = s.subrange(1, s.len() as int).push(s[0]);
    assert forall|x: usize| #[trigger] t.contains(x) <==> s.contains(x) by {
        if t.contains(x) {
            let k = choose|k: int| 0 <= k < t.len() && t[k] == x;
            if k < t.len() - 1 {
                assert(s[k + 1] == x);
            } else {
                assert(s[0] == x);
            }
        }
        if s.contains(x) {
            let k = choose|k: int| 0 <= k < s.len() && s[k] == x;
            if k == 0 {
                assert(t[t.len() - 1] == x);
            } else {
                assert(t[k - 1] == x);
            }
        }
    }
    if s.no_duplicates() {
        assert forall|i: int, j: int| 0 <= i < t.len() && 0 <= j < t.len() && i != j implies t[i] != t[j] by {
            let si = if i < t.len() - 1 { i + 1 } else { 0 };
            let sj = if j < t.len() - 1 { j + 1 } else { 0 };
            assert(t[i] == s[si]);
            assert(t[j] == s[sj]);
        }
    }
}

/// Removing an element keeps the other members and their distinctness.
proof fn lemma_remove_members(s: Seq<usize>, k: int)
    requires
        0 <= k < s.len(),
    ensures
        forall|x: usize| #[trigger] s.remove(k).contains(x) ==> s.contains(x),
        s.no_duplicates() ==> s.remove(k).no_duplicates(),
        s.no_duplicates() ==> !s.remove(k).contains(s[k]),
{
    let t = s.remove(k);
    assert forall|x: usize| #[trigger] t.contains(x) implies s.contains(x) by {
        let i = choose|i: int| 0 <= i < t.len() && t[i] == x;
        if i < k {
            assert(s[i] == x);
        } else {
            assert(s[i + 1] == x);
        }
    }
    if s.no_duplicates() {
        assert forall|i: int, j: int| 0 <= i < t.len() && 0 <= j < t.len() && i != j implies t[i] != t[j] by {
            let si = if i < k { i } else { i + 1 };
            let sj = if j < k { j } else { j + 1 };
            assert(t[i] == s[si]);
            assert(t[j] == s[sj]);
        }
        if t.contains(s[k]) {
            let i = choose|i: int| 0 <= i < t.len() && t[i] == s[k];
            let si = if i < k { i } else { i + 1 };
            assert(s[si] == s[k]);
        }
    }
}

/// Whether slot `k` of a group with slots of `size` bytes lies within one
/// page (counting from the group's start, header included).
pub open spec fn slot_on_one_page(k: nat, size: nat) -> bool {
    (UNIT + size * k) / 4096 == (UNIT + size * k + size - 1) / 4096
}

/// The first slot from `k` on that lies past slot `lim` or does not lie
/// within one page.
pub open spec fn first_off_page(k: nat, lim: nat, size: nat) -> nat
    decreases lim + 1 - k,
{
    if k > lim || !slot_on_one_page(k, size) {
        k
    } else {
        first_off_page(k + 1, lim, size)
    }
}

/// How many slots a lone group with `active_idx + 1` active slots out of
/// `lim`, of `size` bytes each, activates: all slots before the first one
/// from `active_idx + 2` on that does not lie within one page, at most
/// `lim`.
pub open spec fn expanded(active_idx: nat, lim: nat, size: nat) -> nat {
    let c = first_off_page((active_idx + 2) as nat, lim, size);
    if c > lim { lim } else { c }
}

/// Two offsets lie on the same page exactly when they differ only in the
/// bits below the page size.
proof fn lemma_same_page(x: usize, y: usize)
    by (bit_vector)
    ensures
        ((x ^ y) < 4096) == (x / 4096 == y / 4096),
{
}

/// How many slots a lone group activates (see `expanded`).
pub fn expand_count(active_idx: u8, lim: usize, size: usize) -> (cnt: usize)
    requires
        1 <= lim <= 32,
        1 <= size <= 131056,
    ensures
        cnt == expanded(active_idx as nat, lim as nat, size as nat),
        1 <= cnt <= lim,
{
    let mut cnt: usize = active_idx as usize + 2;
    assert(size * cnt <= 131056 * 258) by (nonlinear_arith) requires size <= 131056, cnt <= 258;
    let mut span = UNIT + size * cnt;
    // The scan stops at the first slot past the group's last one: the
    // count is clamped to the group's size below, so going on would not
    // change the outcome.
    while cnt <= lim && (span ^ (span + size - 1)) < 4096
        invariant
            lim <= 32,
            1 <= size <= 131056,
            2 <= cnt <= 258,
            cnt <= lim + 1 || cnt == active_idx + 2,
            size * cnt <= 131056 * 258,
            span == UNIT + size * cnt,
            first_off_page(cnt as nat, lim as nat, size as nat) == first_off_page((active_idx + 2) as nat, lim as nat, size as nat),
        decreases 259 - cnt,
    {
        proof {
            lemma_same_page(span, (span + size - 1) as usize);
        }
        assert(size * (cnt + 1) == size * cnt + size) by (nonlinear_arith);
        assert(size * (cnt + 1) <= 131056 * 258) by (nonlinear_arith) requires size <= 131056, cnt + 1 <= 258;
        cnt = cnt + 1;
        span = span + size;
    }
    proof {
        if cnt <= lim {
            lemma_same_page(span, (span + size - 1) as usize);
        }
    }
    if cnt > lim {
        cnt = lim;
    }
    cnt
}

/// `b` is the lowest set bit of `mask`, or 0 when `mask` is 0.
pub open spec fn is_lowest_bit(b: u32, mask: u32) -> bool {
    &&& b & mask == b
    &&& b & ((b - 1) as u32) == 0
    &&& mask & ((b - 1) as u32) == 0
    &&& (mask != 0 ==> b != 0)
}

/// The unmap sequence counter after it moves on: after 255 it starts
/// again at 1.
pub open spec fn next_seq(seq: u8) -> u8 {
    if seq == 255 { 1 } else { (seq + 1) as u8 }
}

/// The bounce counts once the count of class `sc` decays by one.
pub open spec fn decayed(b: Seq<u8>, sc: int) -> Seq<u8> {
    if has_bounce_slot(sc) && b[bounce_slot(sc)] > 0 {
        b.update(bounce_slot(sc), (b[bounce_slot(sc)] - 1) as u8)
    } else {
        b
    }
}

/// The ring with its head moved to the tail.
pub open spec fn rotated(s: Seq<usize>) -> Seq<usize> {
    s.subrange(1, s.len() as int).push(s[0])
}

/// Group `g` has no freed slot among its active ones.
pub open spec fn none_active_freed(g: Meta) -> bool {
    g.freed_mask & low_mask(g.active_idx as u32) == 0
}

/// The accounting slot of size class `sc`, for the classes 7..39 that
/// have one.
pub open spec fn bounce_slot(sc: int) -> int {
    sc - 7
}

/// Whether size class `sc` has an accounting slot.
pub open spec fn has_bounce_slot(sc: int) -> bool {
    7 <= sc < 39
}

impl Heap {
    /// The bookkeeping is consistent: every table has its size, every ring
    /// names existing records of its own class once each, and the bounce
    /// counts stay at most 150.
    pub open spec fn wf(&self) -> bool {
        &&& self.active@.len() == NUM_CLASSES
        &&& self.usage_by_class@.len() == NUM_CLASSES
        &&& self.unmap_seq@.len() == 32
        &&& self.bounces@.len() == 32
        &&& forall|sc: int, x: usize| 0 <= sc < NUM_CLASSES && #[trigger] self.active@[sc]@.contains(x) ==>
            self.ring_member_ok(sc, x)
        &&& forall|sc: int| 0 <= sc < NUM_CLASSES ==> (#[trigger] self.active@[sc])@.no_duplicates()
        &&& forall|k: int| 0 <= k < self.free_metas@.len() ==> #[trigger] self.free_metas@[k] < self.metas@.len()
        &&& forall|k: int| 0 <= k < 32 ==> #[trigger] self.bounces@[k] <= 150
        &&& forall|k: int| 0 <= k < self.free_metas@.len() ==> self.metas@[#[trigger] self.free_metas@[k] as int].is_zero()
        &&& self.free_metas@.no_duplicates()
        &&& forall|k: int| 0 <= k < self.metas@.len() ==> masks_ok(#[trigger] self.metas@[k])
        &&& forall|k: int| 0 <= k < self.metas@.len() ==> stride_ok(#[trigger] self.metas@[k])
        &&& forall|k: int| 0 <= k < self.metas@.len() ==> (#[trigger] self.metas@[k]).mem % 16 == 0
    }

    /// A ring member names an existing record of the ring's class that has
    /// memory.
    pub open spec fn ring_member_ok(&self, sc: int, x: usize) -> bool {
        &&& x < self.metas@.len()
        &&& self.metas@[x as int].sizeclass_spec() == sc
        &&& self.metas@[x as int].mem != 0
    }

    /// Whether record `m` is in the ring of some size class.
    pub open spec fn in_some_ring(&self, m: usize) -> bool {
        exists|sc: int| 0 <= sc < NUM_CLASSES && (#[trigger] self.active@[sc])@.contains(m)
    }

    /// Fresh bookkeeping with no groups.
    pub fn new() -> (h: Heap)
        ensures
            h.wf(),
            h.metas@.len() == 0,
            h.free_metas@.len() == 0,
            forall|sc: int| 0 <= sc < NUM_CLASSES ==> (#[trigger] h.active@[sc])@.len() == 0 && h.usage_by_class@[sc] == 0,
            forall|k: int| 0 <= k < 32 ==> #[trigger] h.unmap_seq@[k] == 0 && h.bounces@[k] == 0,
            h.seq == 0,
            h.mmap_counter == 0,
    {
        let mut active: Vec<Vec<usize>> = Vec::new();
        let mut k: usize = 0;
        while k < NUM_CLASSES
            invariant
                k <= NUM_CLASSES,
                active@.len() == k,
                forall|t: int| 0 <= t < k ==> (#[trigger] active@[t])@.len() == 0,
            decreases NUM_CLASSES - k,
        {
            active.push(Vec::new());
            k = k + 1;
        }
        Heap {
            metas: Vec::new(),
            free_metas: Vec::new(),
            active,
            usage_by_class: vec![0usize; NUM_CLASSES],
            unmap_seq: vec![0u8; 32],
            bounces: vec![0u8; 32],
            seq: 0,
            mmap_counter: 0,
        }
    }

    /// Moves the unmap sequence counter on; after 255 it starts again at 1
    /// and forgets every recorded unmap.
    pub fn step_seq(&mut self)
        requires
            old(self).wf(),
        ensures
            final(self).wf(),
            final(self).seq == next_seq(old(self).seq),
            old(self).seq == 255 ==> forall|k: int| 0 <= k < 32 ==> #[trigger] final(self).unmap_seq@[k] == 0,
            old(self).seq != 255 ==> final(self).unmap_seq@ == old(self).unmap_seq@,
            final(self).metas@ == old(self).metas@,
            final(self).active@ == old(self).active@,
            final(self).free_metas@ == old(self).free_metas@,
            final(self).usage_by_class@ == old(self).usage_by_class@,
            final(self).bounces@ == old(self).bounces@,
            final(self).mmap_counter == old(self).mmap_counter,
    {
        if self.seq == 255 {
            let mut i: usize = 0;
            while i < 32
                invariant
                    i <= 32,
                    self.unmap_seq@.len() == 32,
                    forall|k: int| 0 <= k < i ==> #[trigger] self.unmap_seq@[k] == 0,
                    self.metas@ == old(self).metas@,
                    self.active@ == old(self).active@,
                    self.free_metas@ == old(self).free_metas@,
                    self.usage_by_class@ == old(self).usage_by_class@,
                    self.bounces@ == old(self).bounces@,
                    self.seq == old(self).seq,
                    self.mmap_counter == old(self).mmap_counter,
                decreases 32 - i,
            {
                self.unmap_seq.set(i, 0);
                i = i + 1;
            }
            self.seq = 1;
        } else {
            self.seq = self.seq + 1;
        }
    }

    /// Records that a group of class `sc` was just unmapped.
    pub fn record_seq(&mut self, sc: usize)
        requires
            old(self).wf(),
        ensures
            final(self).wf(),
            has_bounce_slot(sc as int) ==> final(self).unmap_seq@ == old(self).unmap_seq@.update(bounce_slot(sc as int), old(self).seq),
            !has_bounce_slot(sc as int) ==> final(self).unmap_seq@ == old(self).unmap_seq@,
            final(self).seq == old(self).seq,
            final(self).metas@ == old(self).metas@,
            final(self).active@ == old(self).active@,
            final(self).free_metas@ == old(self).free_metas@,
            final(self).usage_by_class@ == old(self).usage_by_class@,
            final(self).bounces@ == old(self).bounces@,
            final(self).mmap_counter == old(self).mmap_counter,
    {
        if sc.wrapping_sub(7) < 32 {
            let s = self.seq;
            self.unmap_seq.set(sc - 7, s);
        }
    }

    /// The bounce counts once a mapping for class `sc` is counted: when the
    /// class has an accounting slot and a group of it was unmapped less than
    /// 10 steps of the sequence ago, its count grows by one, jumping to 150
    /// at 100.
    pub open spec fn bounced(&self, sc: int) -> Seq<u8> {
        let k = bounce_slot(sc);
        if has_bounce_slot(sc) && self.unmap_seq@[k] != 0
            && vstd::wrapping::u8_specs::wrapping_sub(self.seq, self.unmap_seq@[k]) < 10 {
            self.bounces@.update(k, if self.bounces@[k] + 1 < 100 { (self.bounces@[k] + 1) as u8 } else { 150u8 })
        } else {
            self.bounces@
        }
    }

    /// How a new mapping for class `sc` leaves the accounting, from `old`
    /// to `self`: the bounce is counted (see `bounced`) and then the
    /// sequence moves on (see `step_seq`).
    pub open spec fn mapping_counted(&self, old: &Heap, sc: int) -> bool {
        &&& self.bounces@ == old.bounced(sc)
        &&& self.seq == next_seq(old.seq)
        &&& old.seq == 255 ==> forall|k: int| 0 <= k < 32 ==> #[trigger] self.unmap_seq@[k] == 0
        &&& old.seq != 255 ==> self.unmap_seq@ == old.unmap_seq@
    }

    /// How unmapping a group of class `sc` leaves the accounting, from
    /// `old` to `self`: the sequence moves on (see `step_seq`) and the unmap
    /// is recorded at the new value (see `record_seq`).
    pub open spec fn unmap_counted(&self, old: &Heap, sc: int) -> bool {
        &&& self.seq == next_seq(old.seq)
        &&& forall|k: int| 0 <= k < 32 ==> #[trigger] self.unmap_seq@[k] == (
            if has_bounce_slot(sc) && k == bounce_slot(sc) { next_seq(old.seq) }
            else if old.seq == 255 { 0u8 }
            else { old.unmap_seq@[k] })
    }

    /// The bounce counts and the unmap sequence are as in `old`.
    pub open spec fn counters_kept(&self, old: &Heap) -> bool {
        &&& self.bounces@ == old.bounces@
        &&& self.seq == old.seq
        &&& self.unmap_seq@ == old.unmap_seq@
    }

    /// Counts a bounce for class `sc` when a group of it is mapped again
    /// within 10 steps of one being unmapped; at 100 the count jumps to 150.
    pub fn account_bounce(&mut self, sc: usize)
        requires
            old(self).wf(),
        ensures
            final(self).wf(),
            final(self).bounces@ == old(self).bounced(sc as int),
            final(self).seq == old(self).seq,
            final(self).unmap_seq@ == old(self).unmap_seq@,
            final(self).metas@ == old(self).metas@,
            final(self).active@ == old(self).active@,
            final(self).free_metas@ == old(self).free_metas@,
            final(self).usage_by_class@ == old(self).usage_by_class@,
            final(self).mmap_counter == old(self).mmap_counter,
    {
        if sc.wrapping_sub(7) < 32 {
            let seq = self.unmap_seq[sc - 7];
            if seq != 0 && self.seq.wrapping_sub(seq) < 10 {
                let b = self.bounces[sc - 7];
                if b + 1 < 100 {
                    self.bounces.set(sc - 7, b + 1);
                } else {
                    self.bounces.set(sc - 7, 150);
                }
            }
        }
    }

    /// Lets the bounce count of class `sc` decay by one.
    pub fn decay_bounces(&mut self, sc: usize)
        requires
            old(self).wf(),
        ensures
            final(self).wf(),
            final(self).bounces@ == decayed(old(self).bounces@, sc as int),
            final(self).seq == old(self).seq,
            final(self).unmap_seq@ == old(self).unmap_seq@,
            final(self).metas@ == old(self).metas@,
            final(self).active@ == old(self).active@,
            final(self).free_metas@ == old(self).free_metas@,
            final(self).usage_by_class@ == old(self).usage_by_class@,
            final(self).mmap_counter == old(self).mmap_counter,
    {
        if sc.wrapping_sub(7) < 32 && self.bounces[sc - 7] > 0 {
            let b = self.bounces[sc - 7];
            self.bounces.set(sc - 7, b - 1);
        }
    }


    /// The record `alloc_meta` hands out next: the first one on the free
    /// list, else a new one.
    pub open spec fn next_record(&self) -> usize {
        if self.free_metas@.len() > 0 { self.free_metas@[0] } else { self.metas@.len() as usize }
    }

    /// Hands out a cleared group record: the first one on the free list if
    /// there is one, else a new one.
    pub fn alloc_meta(&mut self) -> (m: usize)
        requires
            old(self).wf(),
        ensures
            final(self).wf(),
            m < final(self).metas@.len(),
            final(self).metas@[m as int].is_zero(),
            old(self).free_metas@.len() > 0 ==> {
                &&& m == old(self).free_metas@[0]
                &&& final(self).free_metas@ == old(self).free_metas@.subrange(1, old(self).free_metas@.len() as int)
                &&& final(self).metas@ == old(self).metas@
            },
            old(self).free_metas@.len() == 0 ==> {
                &&& m == old(self).metas@.len()
                &&& final(self).free_metas@ == old(self).free_metas@
                &&& final(self).metas@ == old(self).metas@.push(final(self).metas@[m as int])
            },
            !final(self).in_some_ring(m),
            !final(self).free_metas@.contains(m),
            final(self).active@ == old(self).active@,
            final(self).usage_by_class@ == old(self).usage_by_class@,
            final(self).unmap_seq@ == old(self).unmap_seq@,
            final(self).bounces@ == old(self).bounces@,
            final(self).seq == old(self).seq,
            final(self).mmap_counter == old(self).mmap_counter,
    {
        let r = dequeue_head(&mut self.free_metas);
        match r {
            Some(m) => {
                assert(self.metas@[m as int].is_zero());
                assert(forall|k: int| 0 <= k < self.free_metas@.len() ==> #[trigger] self.free_metas@[k] == old(self).free_metas@[k + 1]);
                proof {
                    assert(!self.free_metas@.contains(m)) by {
                        if self.free_metas@.contains(m) {
                            let k = choose|k: int| 0 <= k < self.free_metas@.len() && self.free_metas@[k] == m;
                            assert(old(self).free_metas@[k + 1] == old(self).free_metas@[0]);
                        }
                    }
                    assert(!self.in_some_ring(m)) by {
                        if self.in_some_ring(m) {
                            let sc = choose|sc: int| 0 <= sc < NUM_CLASSES && (#[trigger] self.active@[sc])@.contains(m);
                            assert(self.ring_member_ok(sc, m));
                        }
                    }
                }
                m
            },
            None => {
                let m = self.metas.len();
                self.metas.push(Meta::zero());
                proof {
                    assert(!self.in_some_ring(m)) by {
                        if self.in_some_ring(m) {
                            let sc = choose|sc: int| 0 <= sc < NUM_CLASSES && (#[trigger] self.active@[sc])@.contains(m);
                            assert(old(self).ring_member_ok(sc, m));
                        }
                    }
                    assert forall|sc: int, x: usize| 0 <= sc < NUM_CLASSES && #[trigger] self.active@[sc]@.contains(x) implies
                        self.ring_member_ok(sc, x) by {
                        assert(old(self).ring_member_ok(sc, x));
                    }
                    lemma_zero_masks_ok(self.metas@[m as int]);
                }
                m
            },
        }
    }

    /// Clears group record `m` and puts it at the tail of the free list.
    pub fn free_meta(&mut self, m: usize)
        requires
            old(self).wf(),
            m < old(self).metas@.len(),
            !old(self).in_some_ring(m),
            !old(self).free_metas@.contains(m),
        ensures
            final(self).wf(),
            final(self).metas@ == old(self).metas@.update(m as int, final(self).metas@[m as int]),
            final(self).metas@[m as int].is_zero(),
            final(self).free_metas@ == old(self).free_metas@.push(m),
            final(self).active@ == old(self).active@,
            final(self).usage_by_class@ == old(self).usage_by_class@,
            final(self).unmap_seq@ == old(self).unmap_seq@,
            final(self).bounces@ == old(self).bounces@,
            final(self).seq == old(self).seq,
            final(self).mmap_counter == old(self).mmap_counter,
    {
        self.metas.set(m, Meta::zero());
        queue(&mut self.free_metas, m);
        proof {
            lemma_zero_masks_ok(self.metas@[m as int]);
            assert forall|sc: int, x: usize| 0 <= sc < NUM_CLASSES && #[trigger] self.active@[sc]@.contains(x) implies
                self.ring_member_ok(sc, x) by {
                assert(old(self).ring_member_ok(sc, x));
                assert(x != m);
            }
        }
    }

    /// Moves the freed slots among the first `active_idx + 1` of group `m`
    /// over to the available ones and returns them.
    pub fn activate_group(&mut self, m: usize) -> (r: u32)
        requires
            old(self).wf(),
            m < old(self).metas@.len(),
        ensures
            final(self).wf(),
            ({
                let g = old(self).metas@[m as int];
                let act = low_mask(g.active_idx as u32);
                &&& r == g.freed_mask & act
                &&& final(self).metas@ == old(self).metas@.update(m as int,
                    Meta { avail_mask: r, freed_mask: g.freed_mask & !act, ..g })
            }),
            final(self).active@ == old(self).active@,
            final(self).free_metas@ == old(self).free_metas@,
            final(self).usage_by_class@ == old(self).usage_by_class@,
            final(self).unmap_seq@ == old(self).unmap_seq@,
            final(self).bounces@ == old(self).bounces@,
            final(self).seq == old(self).seq,
            final(self).mmap_counter == old(self).mmap_counter,
    {
        let mut g = self.metas[m];
        let act = mask_through(g.active_idx as u32);
        let mask = g.freed_mask;
        proof {
            lemma_activate_masks(g.avail_mask, g.freed_mask, low_mask(g.last_idx_spec() as u32), act);
        }
        g.freed_mask = mask & !act;
        g.avail_mask = mask & act;
        let r = g.avail_mask;
        self.metas.set(m, g);
        proof {
            assert forall|sc: int, x: usize| 0 <= sc < NUM_CLASSES && #[trigger] self.active@[sc]@.contains(x) implies
                self.ring_member_ok(sc, x) by {
                assert(old(self).ring_member_ok(sc, x));
            }
            assert(masks_ok(self.metas@[m as int]));
            assert(forall|k: int| 0 <= k < self.metas@.len() ==> masks_ok(#[trigger] self.metas@[k]));
            assert(stride_ok(self.metas@[m as int])) by {
                let og = old(self).metas@[m as int];
                assert(stride_ok(og));
                lemma_free_bits(og.avail_mask, og.freed_mask);
            }
            assert(forall|k: int| 0 <= k < self.metas@.len() ==> stride_ok(#[trigger] self.metas@[k]));
            assert(forall|k: int| 0 <= k < self.free_metas@.len() ==> self.metas@[#[trigger] self.free_metas@[k] as int].is_zero()) by {
                assert forall|k: int| 0 <= k < self.free_metas@.len() implies self.metas@[#[trigger] self.free_metas@[k] as int].is_zero() by {
                    if self.free_metas@[k] == m {
                        assert(old(self).metas@[m as int].is_zero());
                        lemma_empty_masks(act);
                    }
                }
            }
        }
        r
    }


    /// Whether the records and tables other than ring `sc` are as in `old`.
    pub open spec fn same_except_ring(&self, old: &Heap, sc: int) -> bool {
        &&& self.metas@ == old.metas@
        &&& self.active@.len() == old.active@.len()
        &&& forall|t: int| 0 <= t < NUM_CLASSES && t != sc ==> #[trigger] self.active@[t] == old.active@[t]
        &&& self.free_metas@ == old.free_metas@
        &&& self.usage_by_class@ == old.usage_by_class@
        &&& self.unmap_seq@ == old.unmap_seq@
        &&& self.bounces@ == old.bounces@
        &&& self.seq == old.seq
        &&& self.mmap_counter == old.mmap_counter
    }

    /// Makes the group after the head of ring `sc` its head.
    pub(crate) fn ring_advance(&mut self, sc: usize)
        requires
            old(self).wf(),
            sc < NUM_CLASSES,
            old(self).active@[sc as int]@.len() > 0,
        ensures
            final(self).wf(),
            final(self).same_except_ring(old(self), sc as int),
            final(self).active@[sc as int]@ == old(self).active@[sc as int]@.subrange(1, old(self).active@[sc as int]@.len() as int).push(old(self).active@[sc as int]@[0]),
    {
        proof {
            lemma_advance_members(self.active@[sc as int]@);
        }
        advance(&mut self.active[sc]);
        proof {
            assert forall|t: int, x: usize| 0 <= t < NUM_CLASSES && #[trigger] self.active@[t]@.contains(x) implies
                self.ring_member_ok(t, x) by {
                assert(old(self).active@[t]@.contains(x));
                assert(old(self).ring_member_ok(t, x));
            }
            assert forall|t: int| 0 <= t < NUM_CLASSES implies (#[trigger] self.active@[t])@.no_duplicates() by {
                assert(old(self).active@[t]@.no_duplicates());
            }
        }
    }

    /// Takes `m` out of ring `sc`; if it was the head, the group after it
    /// becomes the head.
    pub(crate) fn ring_remove(&mut self, sc: usize, m: usize)
        requires
            old(self).wf(),
            sc < NUM_CLASSES,
            old(self).active@[sc as int]@.contains(m),
        ensures
            final(self).wf(),
            final(self).same_except_ring(old(self), sc as int),
            exists|k: int| 0 <= k < old(self).active@[sc as int]@.len() && old(self).active@[sc as int]@[k] == m
                && #[trigger] final(self).active@[sc as int]@ == old(self).active@[sc as int]@.remove(k),
            !final(self).active@[sc as int]@.contains(m),
            forall|x: usize| #[trigger] final(self).active@[sc as int]@.contains(x) <==> (old(self).active@[sc as int]@.contains(x) && x != m),
            old(self).active@[sc as int]@[0] == m ==> final(self).active@[sc as int]@ == old(self).active@[sc as int]@.subrange(1, old(self).active@[sc as int]@.len() as int),
    {
        let ghost s0 = self.active@[sc as int]@;
        dequeue(&mut self.active[sc], m);
        proof {
            let k = choose|k: int| 0 <= k < s0.len() && s0[k] == m && #[trigger] self.active@[sc as int]@ == s0.remove(k)
                && forall|t: int| 0 <= t < k ==> s0[t] != m;
            lemma_remove_members(s0, k);
            assert forall|x: usize| #[trigger] self.active@[sc as int]@.contains(x) <==> (s0.contains(x) && x != m) by {
                if s0.contains(x) && x != m {
                    let i = choose|i: int| 0 <= i < s0.len() && s0[i] == x;
                    if i < k {
                        assert(self.active@[sc as int]@[i] == x);
                    } else {
                        assert(i != k);
                        assert(self.active@[sc as int]@[i - 1] == x);
                    }
                }
            }
            if s0[0] == m {
                assert(k == 0);
                assert(s0.remove(0) =~= s0.subrange(1, s0.len() as int));
            }
            assert forall|t: int, x: usize| 0 <= t < NUM_CLASSES && #[trigger] self.active@[t]@.contains(x) implies
                self.ring_member_ok(t, x) by {
                assert(old(self).active@[t]@.contains(x));
                assert(old(self).ring_member_ok(t, x));
            }
            assert forall|t: int| 0 <= t < NUM_CLASSES implies (#[trigger] self.active@[t])@.no_duplicates() by {
                assert(old(self).active@[t]@.no_duplicates());
            }
        }
    }

    /// Puts group `m` at the tail of ring `sc`.
    pub(crate) fn ring_push(&mut self, sc: usize, m: usize)
        requires
            old(self).wf(),
            sc < NUM_CLASSES,
            !old(self).active@[sc as int]@.contains(m),
            old(self).ring_member_ok(sc as int, m),
        ensures
            final(self).wf(),
            final(self).same_except_ring(old(self), sc as int),
            final(self).active@[sc as int]@ == old(self).active@[sc as int]@.push(m),
    {
        queue(&mut self.active[sc], m);
        proof {
            let s0 = old(self).active@[sc as int]@;
            assert forall|t: int, x: usize| 0 <= t < NUM_CLASSES && #[trigger] self.active@[t]@.contains(x) implies
                self.ring_member_ok(t, x) by {
                if t == sc as int {
                    if x != m {
                        let i = choose|i: int| 0 <= i < self.active@[t]@.len() && self.active@[t]@[i] == x;
                        assert(s0[i] == x);
                        assert(old(self).active@[t]@.contains(x));
                    }
                } else {
                    assert(old(self).active@[t]@.contains(x));
                }
                assert(x == m || old(self).ring_member_ok(t, x));
            }
            assert forall|t: int| 0 <= t < NUM_CLASSES implies (#[trigger] self.active@[t])@.no_duplicates() by {
                if t == sc as int {
                    assert forall|i: int, j: int| 0 <= i < s0.len() + 1 && 0 <= j < s0.len() + 1 && i != j
                        implies self.active@[t]@[i] != self.active@[t]@[j] by {
                        if i == s0.len() {
                            assert(!s0.contains(m));
                            assert(s0[j] != m);
                        } else if j == s0.len() {
                            assert(s0[i] != m);
                        }
                    }
                } else {
                    assert(old(self).active@[t]@.no_duplicates());
                }
            }
        }
    }


    /// Sets the header's active index of group `m`.
    pub(crate) fn set_active_idx(&mut self, m: usize, v: u8)
        requires
            old(self).wf(),
            m < old(self).metas@.len(),
            !old(self).free_metas@.contains(m),
        ensures
            final(self).wf(),
            final(self).metas@ == old(self).metas@.update(m as int, Meta { active_idx: v, ..old(self).metas@[m as int] }),
            final(self).active@ == old(self).active@,
            final(self).free_metas@ == old(self).free_metas@,
            final(self).usage_by_class@ == old(self).usage_by_class@,
            final(self).unmap_seq@ == old(self).unmap_seq@,
            final(self).bounces@ == old(self).bounces@,
            final(self).seq == old(self).seq,
            final(self).mmap_counter == old(self).mmap_counter,
    {
        let mut g = self.metas[m];
        g.active_idx = v;
        self.metas.set(m, g);
        proof {
            assert forall|t: int, x: usize| 0 <= t < NUM_CLASSES && #[trigger] self.active@[t]@.contains(x) implies
                self.ring_member_ok(t, x) by {
                assert(old(self).ring_member_ok(t, x));
            }
            assert(forall|k: int| 0 <= k < self.metas@.len() ==> masks_ok(#[trigger] self.metas@[k]));
            assert forall|k: int| 0 <= k < self.free_metas@.len() implies self.metas@[#[trigger] self.free_metas@[k] as int].is_zero() by {
                assert(self.free_metas@[k] != m);
            }
        }
    }

    /// Takes the lowest bit of `mask` as the slot handed out from group
    /// `m`, leaving the rest of `mask` as its available slots.
    pub(crate) fn take_first(&mut self, m: usize, mask: u32) -> (first: u32)
        requires
            old(self).wf(),
            m < old(self).metas@.len(),
            mask == old(self).metas@[m as int].avail_mask,
        ensures
            final(self).wf(),
            first & mask == first,
            mask != 0 ==> first != 0,
            first & (first - 1) as u32 == 0,
            first & low_mask(old(self).metas@[m as int].last_idx_spec() as u32) == first,
            first & final(self).metas@[m as int].avail_mask == 0,
            final(self).metas@[m as int].avail_mask | first == mask,
            is_lowest_bit(first, mask),
            final(self).metas@[m as int].avail_mask == (mask - first) as u32,
            final(self).metas@ == old(self).metas@.update(m as int,
                Meta { avail_mask: final(self).metas@[m as int].avail_mask, ..old(self).metas@[m as int] }),
            final(self).active@ == old(self).active@,
            final(self).free_metas@ == old(self).free_metas@,
            final(self).usage_by_class@ == old(self).usage_by_class@,
            final(self).unmap_seq@ == old(self).unmap_seq@,
            final(self).bounces@ == old(self).bounces@,
            final(self).seq == old(self).seq,
            final(self).mmap_counter == old(self).mmap_counter,
    {
        let mut g = self.metas[m];
        let neg = (!mask).wrapping_add(1);
        let first = mask & neg;
        proof {
            assert(masks_ok(g));
            lemma_take_first(mask, g.freed_mask, low_mask(g.last_idx_spec() as u32), neg, first);
        }
        let rest = mask - first;
        g.avail_mask = rest;
        self.metas.set(m, g);
        proof {
            assert forall|t: int, x: usize| 0 <= t < NUM_CLASSES && #[trigger] self.active@[t]@.contains(x) implies
                self.ring_member_ok(t, x) by {
                assert(old(self).ring_member_ok(t, x));
            }
            assert(forall|k: int| 0 <= k < self.metas@.len() ==> masks_ok(#[trigger] self.metas@[k]));
            assert(stride_ok(g)) by {
                let og = old(self).metas@[m as int];
                assert(stride_ok(og));
                lemma_free_bits(og.avail_mask, og.freed_mask);
                lemma_free_bits(rest, og.freed_mask);
            }
            assert(forall|k: int| 0 <= k < self.metas@.len() ==> stride_ok(#[trigger] self.metas@[k]));
            assert forall|k: int| 0 <= k < self.free_metas@.len() implies self.metas@[#[trigger] self.free_metas@[k] as int].is_zero() by {
                if self.free_metas@[k] == m {
                    assert(old(self).metas@[m as int].is_zero());
                    assert(mask == 0);
                    lemma_empty_masks(0);
                }
            }
        }
        first
    }

    /// The ring left once its head, which has nothing available, is dealt
    /// with: a head with no freed slot leaves it, else it moves to the tail.
    pub open spec fn ring_after_head(&self, s: Seq<usize>) -> Seq<usize> {
        if self.metas@[s[0] as int].freed_mask == 0 {
            s.subrange(1, s.len() as int)
        } else {
            rotated(s)
        }
    }

    /// The ring once a head whose slots are all freed, and which may be
    /// freed, is moved on from.
    pub open spec fn ring_after_skip(&self, s: Seq<usize>) -> Seq<usize> {
        let g = self.metas@[s[0] as int];
        if g.freed_mask == low_mask(g.last_idx_spec() as u32) && g.freeable_spec() {
            rotated(s)
        } else {
            s
        }
    }

    /// The ring of class `sc` once `pick_head` has chosen its head (see
    /// there).
    pub open spec fn picked_ring(&self, sc: int) -> Seq<usize> {
        let s1 = self.ring_after_head(self.active@[sc]@);
        if s1.len() == 0 {
            s1
        } else {
            let s2 = self.ring_after_skip(s1);
            if none_active_freed(self.metas@[s2[0] as int]) && s2.len() > 1 {
                rotated(s2)
            } else {
                s2
            }
        }
    }

    /// The group records once `pick_head` has chosen the head of ring
    /// `sc`: a lone head with no freed slot among its active ones activates
    /// more slots (see `expanded`).
    pub open spec fn picked_metas(&self, sc: int) -> Seq<Meta> {
        let s1 = self.ring_after_head(self.active@[sc]@);
        if s1.len() == 0 {
            self.metas@
        } else {
            let s2 = self.ring_after_skip(s1);
            let g2 = self.metas@[s2[0] as int];
            if none_active_freed(g2) && s2.len() <= 1 {
                self.metas@.update(s2[0] as int, Meta {
                    active_idx: (expanded(g2.active_idx as nat, g2.last_idx_spec() + 1, (UNIT * class_units(sc)) as nat) - 1) as u8,
                    ..g2
                })
            } else {
                self.metas@
            }
        }
    }

    /// The group that ring `sc` hands a slot out from, with the slots it
    /// chooses among: the head's available slots when it has any, else the
    /// freed slots that the head chosen by `pick_head` activates.
    pub open spec fn offer(&self, sc: int) -> (usize, u32) {
        let s0 = self.active@[sc]@;
        let g0 = self.metas@[s0[0] as int];
        if g0.avail_mask != 0 {
            (s0[0], g0.avail_mask)
        } else {
            let ring = self.picked_ring(sc);
            let gm = self.picked_metas(sc)[ring[0] as int];
            (ring[0], gm.freed_mask & low_mask(gm.active_idx as u32))
        }
    }

    /// Ring `sc` once it has handed out a slot, or found none (see
    /// `try_avail`): as it was when its head has a slot available or it is
    /// empty, else as `pick_head` leaves it.
    pub open spec fn taken_ring(&self, sc: int) -> Seq<usize> {
        let s0 = self.active@[sc]@;
        if s0.len() == 0 || self.metas@[s0[0] as int].avail_mask != 0 {
            s0
        } else {
            self.picked_ring(sc)
        }
    }

    /// The group records once ring `sc` has handed out the slot with bit
    /// `first` (0 for none): the bit leaves the available slots of the
    /// group it came from, whose freed slots among its active ones were
    /// first made available if its head had none.
    pub open spec fn taken_metas(&self, sc: int, first: u32) -> Seq<Meta> {
        let s0 = self.active@[sc]@;
        let g0 = self.metas@[s0[0] as int];
        if s0.len() == 0 {
            self.metas@
        } else if g0.avail_mask != 0 {
            self.metas@.update(s0[0] as int, Meta { avail_mask: (g0.avail_mask - first) as u32, ..g0 })
        } else {
            let ring = self.picked_ring(sc);
            let metas = self.picked_metas(sc);
            if ring.len() == 0 {
                metas
            } else {
                let gm = metas[ring[0] as int];
                let act = low_mask(gm.active_idx as u32);
                metas.update(ring[0] as int,
                    Meta { avail_mask: ((gm.freed_mask & act) - first) as u32, freed_mask: gm.freed_mask & !act, ..gm })
            }
        }
    }

    /// The bounce counts once ring `sc` has handed out a slot: the class of
    /// a group whose freed slots were made available to do so decays.
    pub open spec fn taken_bounces(&self, sc: int) -> Seq<u8> {
        let s0 = self.active@[sc]@;
        let ring = self.picked_ring(sc);
        let gm = self.picked_metas(sc)[ring[0] as int];
        if s0.len() > 0 && self.metas@[s0[0] as int].avail_mask == 0 && ring.len() > 0
            && gm.freed_mask & low_mask(gm.active_idx as u32) != 0 {
            decayed(self.bounces@, gm.sizeclass_spec() as int)
        } else {
            self.bounces@
        }
    }

    /// Whether ring `sc` has a slot to hand out (see `offer`).
    pub open spec fn has_slot(&self, sc: int) -> bool {
        &&& self.active@[sc]@.len() > 0
        &&& (self.metas@[self.active@[sc]@[0] as int].avail_mask != 0 || self.picked_ring(sc).len() > 0)
        &&& self.offer(sc).1 != 0
    }

    /// Chooses the head group of ring `sc` to activate slots in, when the
    /// head has none available: drops a head with nothing freed from the
    /// ring, or moves on to the next group; skips a next group that is
    /// wholly freed (it may be unmapped); and if the chosen group has no
    /// freed slot among its active ones, moves on again, or, when it is the
    /// only group, lets it activate more of its slots (up to the end of the
    /// page). Returns the chosen group, now the head, or `None` if the ring
    /// ran empty.
    fn pick_head(&mut self, sc: usize) -> (r: Option<usize>)
        requires
            old(self).wf(),
            sc < NUM_CLASSES,
            old(self).active@[sc as int]@.len() > 0,
        ensures
            final(self).wf(),
            final(self).metas@.len() == old(self).metas@.len(),
            forall|k: int| 0 <= k < old(self).metas@.len() ==>
                #[trigger] final(self).metas@[k] == (Meta { active_idx: final(self).metas@[k].active_idx, ..old(self).metas@[k] }),
            forall|k: usize| k < old(self).metas@.len() && !old(self).active@[sc as int]@.contains(k) ==>
                #[trigger] final(self).metas@[k as int] == old(self).metas@[k as int],
            forall|t: int| 0 <= t < NUM_CLASSES && t != sc ==> #[trigger] final(self).active@[t] == old(self).active@[t],
            forall|x: usize| #[trigger] final(self).active@[sc as int]@.contains(x) ==> old(self).active@[sc as int]@.contains(x),
            final(self).free_metas@ == old(self).free_metas@,
            final(self).usage_by_class@ == old(self).usage_by_class@,
            final(self).unmap_seq@ == old(self).unmap_seq@,
            final(self).bounces@ == old(self).bounces@,
            final(self).seq == old(self).seq,
            final(self).mmap_counter == old(self).mmap_counter,
            (r matches Some(m) ==> final(self).active@[sc as int]@.len() > 0 && final(self).active@[sc as int]@[0] == m),
            final(self).active@[sc as int]@ == old(self).picked_ring(sc as int),
            final(self).metas@ == old(self).picked_metas(sc as int),
            r == (if old(self).picked_ring(sc as int).len() == 0 { None } else { Some(old(self).picked_ring(sc as int)[0]) }),
    {
        let mut m = self.active[sc][0];
        proof {
            assert(self.active@[sc as int]@.contains(m));
            assert(self.ring_member_ok(sc as int, m));
        }
        if self.metas[m].freed_mask == 0 {
            self.ring_remove(sc, m);
            if self.active[sc].len() == 0 {
                return None;
            }
        } else {
            self.ring_advance(sc);
        }
        m = self.active[sc][0];
        proof {
            assert(self.active@[sc as int]@.contains(m));
            assert(self.ring_member_ok(sc as int, m));
        }
        let mut mask = self.metas[m].freed_mask;
        let full = mask_through(self.metas[m].last_idx() as u32);
        if mask == full && self.metas[m].freeable() {
            self.ring_advance(sc);
            m = self.active[sc][0];
            proof {
                assert(self.active@[sc as int]@.contains(m));
                assert(self.ring_member_ok(sc as int, m));
            }
            mask = self.metas[m].freed_mask;
        }
        let act_mask = mask_through(self.metas[m].active_idx as u32);
        if mask & act_mask == 0 {
            if self.active[sc].len() > 1 {
                self.ring_advance(sc);
                m = self.active[sc][0];
                proof {
                    assert(self.active@[sc as int]@.contains(m));
                    assert(self.ring_member_ok(sc as int, m));
                }
            } else {
                let lim = self.metas[m].last_idx() + 1;
                let size = size_class(sc) as usize * UNIT;
                let cnt = expand_count(self.metas[m].active_idx, lim, size);
                proof {
                    assert(!self.free_metas@.contains(m)) by {
                        if self.free_metas@.contains(m) {
                            let k = choose|k: int| 0 <= k < self.free_metas@.len() && self.free_metas@[k] == m;
                            assert(self.metas@[self.free_metas@[k] as int].is_zero());
                        }
                    }
                }
                self.set_active_idx(m, (cnt - 1) as u8);
            }
        }
        Some(m)
    }

    /// Finds a slot in the head group of ring `sc`: one available in the
    /// head, else (see `pick_head`) one of the freed slots that the chosen
    /// head group activates. Returns the slot's bit in the head group's
    /// mask, or 0 if there is none.
    pub fn try_avail(&mut self, sc: usize) -> (first: u32)
        requires
            old(self).wf(),
            sc < NUM_CLASSES,
        ensures
            final(self).wf(),
            final(self).metas@.len() == old(self).metas@.len(),
            forall|k: int| 0 <= k < old(self).metas@.len() ==> {
                &&& (#[trigger] final(self).metas@[k]).mem == old(self).metas@[k].mem
                &&& final(self).metas@[k].bitfields == old(self).metas@[k].bitfields
            },
            forall|k: usize| k < old(self).metas@.len() && !old(self).active@[sc as int]@.contains(k) ==>
                #[trigger] final(self).metas@[k as int] == old(self).metas@[k as int],
            forall|t: int| 0 <= t < NUM_CLASSES && t != sc ==> #[trigger] final(self).active@[t] == old(self).active@[t],
            forall|x: usize| #[trigger] final(self).active@[sc as int]@.contains(x) ==> old(self).active@[sc as int]@.contains(x),
            final(self).free_metas@ == old(self).free_metas@,
            final(self).usage_by_class@ == old(self).usage_by_class@,
            final(self).unmap_seq@ == old(self).unmap_seq@,
            final(self).seq == old(self).seq,
            final(self).mmap_counter == old(self).mmap_counter,
            keeps_in_use(old(self), final(self)),
            final(self).active@[sc as int]@ == old(self).taken_ring(sc as int),
            final(self).metas@ == old(self).taken_metas(sc as int, first),
            final(self).bounces@ == old(self).taken_bounces(sc as int),
            ({
                let s0 = old(self).active@[sc as int]@;
                let g0 = old(self).metas@[s0[0] as int];
                if s0.len() == 0 {
                    &&& first == 0
                    &&& final(self).metas@ == old(self).metas@
                    &&& final(self).active@ == old(self).active@
                    &&& final(self).bounces@ == old(self).bounces@
                } else if g0.avail_mask != 0 {
                    &&& is_lowest_bit(first, g0.avail_mask)
                    &&& final(self).metas@ == old(self).metas@.update(s0[0] as int, Meta { avail_mask: (g0.avail_mask - first) as u32, ..g0 })
                    &&& final(self).active@ == old(self).active@
                    &&& final(self).bounces@ == old(self).bounces@
                } else {
                    let ring = old(self).picked_ring(sc as int);
                    let metas = old(self).picked_metas(sc as int);
                    &&& final(self).active@[sc as int]@ == ring
                    &&& ring.len() == 0 ==> first == 0 && final(self).metas@ == metas && final(self).bounces@ == old(self).bounces@
                    &&& ring.len() > 0 ==> {
                        let m = ring[0];
                        let gm = metas[m as int];
                        let act = low_mask(gm.active_idx as u32);
                        let avail = gm.freed_mask & act;
                        &&& is_lowest_bit(first, avail)
                        &&& final(self).metas@ == metas.update(m as int,
                            Meta { avail_mask: (avail - first) as u32, freed_mask: gm.freed_mask & !act, ..gm })
                        &&& final(self).bounces@ == (if avail != 0 { decayed(old(self).bounces@, gm.sizeclass_spec() as int) } else { old(self).bounces@ })
                    }
                }
            }),
            first != 0 ==> {
                &&& final(self).active@[sc as int]@.len() > 0
                &&& first & (first - 1) as u32 == 0
                &&& ({
                    let h = final(self).active@[sc as int]@[0] as int;
                    &&& first & final(self).metas@[h].avail_mask == 0
                    &&& first & (old(self).metas@[h].avail_mask | old(self).metas@[h].freed_mask) == first
                    &&& first & low_mask(final(self).metas@[h].last_idx_spec() as u32) == first
                })
            },
    {
        proof {
            lemma_keeps_refl(old(self));
        }
        if self.active[sc].len() == 0 {
            return 0;
        }
        let m0 = self.active[sc][0];
        proof {
            assert(self.active@[sc as int]@.contains(m0));
            assert(self.ring_member_ok(sc as int, m0));
        }
        let mut m = m0;
        let mut mask = self.metas[m0].avail_mask;
        if mask == 0 {
            let picked = self.pick_head(sc);
            proof {
                assert forall|k: int| #[trigger] record_live(old(self), k) implies
                    free_bits(self.metas@[k]) & !free_bits(old(self).metas@[k]) == 0 by {
                    assert(self.metas@[k] == (Meta { active_idx: self.metas@[k].active_idx, ..old(self).metas@[k] }));
                    lemma_within_masks(free_bits(old(self).metas@[k]), 0, 0, 0);
                }
                lemma_keeps_from_frame(old(self), self);
            }
            match picked {
                None => {
                    return 0;
                },
                Some(h) => {
                    m = h;
                },
            }
            proof {
                assert(self.active@[sc as int]@.contains(m));
                assert(self.ring_member_ok(sc as int, m));
            }
            let ghost h1 = *self;
            mask = self.activate_group(m);
            proof {
                let g = h1.metas@[m as int];
                lemma_free_shrinks(g.avail_mask, g.freed_mask, low_mask(g.active_idx as u32), 0, 0, 0);
                assert forall|k: int| #[trigger] record_live(&h1, k) implies
                    free_bits(self.metas@[k]) & !free_bits(h1.metas@[k]) == 0 by {
                    if k != m {
                        lemma_within_masks(free_bits(h1.metas@[k]), 0, 0, 0);
                    }
                }
                lemma_keeps_from_frame(&h1, self);
                lemma_keeps_trans(old(self), &h1, self);
            }
            if mask == 0 {
                proof {
                    lemma_empty_masks(0);
                }
                return 0;
            }
            let msc = self.metas[m].sizeclass();
            let ghost h2 = *self;
            self.decay_bounces(msc);
            proof {
                lemma_keeps_same_records(&h2, self);
                lemma_keeps_trans(old(self), &h2, self);
            }
        }
        proof {
            assert(self.active@[sc as int]@.contains(m));
            assert(self.ring_member_ok(sc as int, m));
            assert(!self.free_metas@.contains(m)) by {
                if self.free_metas@.contains(m) {
                    let k = choose|k: int| 0 <= k < self.free_metas@.len() && self.free_metas@[k] == m;
                    assert(self.metas@[self.free_metas@[k] as int].is_zero());
                }
            }
        }
        let ghost pre = self.metas@[m as int];
        let ghost h3 = *self;
        let first = self.take_first(m, mask);
        proof {
            let og = old(self).metas@[m as int];
            lemma_taken_was_free(first, og.avail_mask, og.freed_mask, low_mask(pre.active_idx as u32));
            lemma_free_shrinks(0, pre.freed_mask, 0, self.metas@[m as int].avail_mask, first, mask);
            assert forall|k: int| #[trigger] record_live(&h3, k) implies
                free_bits(self.metas@[k]) & !free_bits(h3.metas@[k]) == 0 by {
                if k != m {
                    lemma_within_masks(free_bits(h3.metas@[k]), 0, 0, 0);
                }
            }
            lemma_keeps_from_frame(&h3, self);
            lemma_keeps_trans(old(self), &h3, self);
        }
        first
    }

    /// Whether class `sc` counts as bouncing (100 or more).
    pub open spec fn bouncing(&self, sc: int) -> bool {
        has_bounce_slot(sc) && self.bounces@[bounce_slot(sc)] >= 100
    }

    /// Whether class `sc` is bouncing: its groups keep being unmapped and
    /// mapped again.
    pub fn is_bouncing(&self, sc: usize) -> (r: bool)
        requires
            self.wf(),
        ensures
            r == self.bouncing(sc as int),
    {
        sc.wrapping_sub(7) < 32 && self.bounces[sc - 7] >= 100
    }
}

} // verus!
