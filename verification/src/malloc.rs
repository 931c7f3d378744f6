//! A `malloc` request as a state machine: the bookkeeping decides, and
//! the caller performs what needs memory or touches group memory (mapping
//! pages, framing a slot) and reports back.

use vstd::prelude::*;
use crate::meta::{Meta, size_class, class_units, size_overflows, overflows, stride_of, stride_defined, class_for,
    is_least_class, UNIT, IB, MMAP_THRESHOLD};
use crate::heap::{Heap, NUM_CLASSES, keeps_in_use, slot_free_in, record_live, free_bits, is_lowest_bit, lemma_keeps_refl,
    lemma_keeps_trans, lemma_free_pulls_back};
use crate::slots::{GroupPlan, GroupSource, SlotStep, source_ok, plan_holds, serving_class, planned, installed, large_record};

verus! {

/// A slot handed out: slot `idx` of the group with record `meta`, to be
/// framed for the request with counter `ctr`.
#[derive(Clone, Copy)]
pub struct Grant {
    pub meta: usize,
    pub idx: usize,
    pub ctr: usize,
}

/// What the caller is to do next for a request.
#[derive(Clone, Copy)]
pub enum MallocAction {
    /// The request is served by the slot granted.
    Done(Grant),
    /// The request cannot be served: out of memory.
    Fail,
    /// Map `len` bytes of fresh memory and report where (or that it failed).
    MapPages { len: usize },
    /// Frame slot `idx` of group `meta` for `n` bytes with counter `ctr`,
    /// mark it as holding a group of `cnt` slots of `size` bytes (see
    /// `mark_carved`), and report where the slot starts.
    Carve { meta: usize, idx: usize, n: usize, ctr: usize, cnt: usize, size: usize },
}

/// What the caller reports back.
#[derive(Clone, Copy)]
pub enum MallocEvent {
    /// The mapping asked for starts at this address.
    Mapped(usize),
    /// The mapping asked for could not be made.
    MapFailed,
    /// The slot asked to be carved starts at this address.
    Carved(usize),
}

/// What a request is waiting for.
#[derive(Clone, Copy)]
pub enum Waiting {
    Nothing,
    LargeMap { needed: usize },
    GroupMap,
    CarvedSlot,
}

/// A `malloc` request in progress: its size, what it waits for, the
/// planned groups still waiting for memory, the innermost last, and the
/// bookkeeping as it was when the request started.
pub struct MallocJob {
    pub n: usize,
    pub waiting: Waiting,
    pub pending: Vec<GroupPlan>,
    pub origin: Ghost<Heap>,
}

/// The slots of group `g` hold `n` bytes after the in-band header.
pub open spec fn slot_fits(g: Meta, n: nat) -> bool {
    stride_defined(g) && stride_of(g) >= IB + n
}

/// The outermost planned group serves the request of `n` bytes itself:
/// its class's slots hold the request, and so does its one slot when it
/// has a mapping of its own (see `plan_holds`).
pub open spec fn serves(p: GroupPlan, n: nat) -> bool {
    &&& UNIT * class_units(p.sc as int) >= IB + n
    &&& plan_holds(p, n)
}

/// The slots of the class that serves a small request hold it.
proof fn lemma_serving_fits(h: &Heap, n: nat)
    requires
        is_least_class(class_for(n), n),
    ensures
        UNIT * class_units(serving_class(h, class_for(n))) >= IB + n,
        0 <= serving_class(h, class_for(n)) < 48,
{
    let c = class_for(n);
    if serving_class(h, c) == c + 1 {
        crate::meta::lemma_class_units_bounds(c + 1);
    }
    assert(16 * ((n + 3) / 16 + 1) >= n + 4) by (nonlinear_arith);
}

/// A group installed for the outermost planned group, which serves the
/// request, has slots that hold it.
proof fn lemma_installed_fits(p: GroupPlan, g: Meta, n: nat)
    requires
        serves(p, n),
        source_ok(p),
        p.sc < NUM_CLASSES,
        1 <= p.cnt <= 32,
        g.last_idx_spec() == p.cnt - 1,
        g.sizeclass_spec() == p.sc,
        g.maplen_spec() == (match p.source { GroupSource::Mapped { needed } => (needed / 4096) as nat, GroupSource::Carved { .. } => 0 }),
    ensures
        slot_fits(g, n),
{
    if let GroupSource::Mapped { needed } = p.source {
        assert((needed / 4096) * 4096 == needed) by (nonlinear_arith) requires needed % 4096 == 0;
    }
}

/// A group installed for a planned group that a group of an inner class is
/// carved out of has slots of its whole class.
proof fn lemma_installed_carvable(outer: GroupPlan, p: GroupPlan, g: Meta)
    requires
        outer.source matches GroupSource::Carved { sc: j, req } && j == p.sc && plan_holds(p, req as nat),
        source_ok(outer),
        source_ok(p),
        1 <= p.cnt <= 32,
        g.last_idx_spec() == p.cnt - 1,
        g.sizeclass_spec() == p.sc,
        g.maplen_spec() == (match p.source { GroupSource::Mapped { needed } => (needed / 4096) as nat, GroupSource::Carved { .. } => 0 }),
    ensures
        stride_of(g) >= UNIT * class_units(p.sc as int),
{
    if let GroupSource::Mapped { needed } = p.source {
        assert((needed / 4096) * 4096 == needed) by (nonlinear_arith) requires needed % 4096 == 0;
    }
}

/// A group of one slot mapped for a large request of `n` bytes, with the
/// pages for `n + IB + UNIT` bytes, holds it.
proof fn lemma_large_fits(g: Meta, n: nat, needed: nat)
    requires
        needed == n + IB + UNIT,
        g.last_idx_spec() == 0,
        g.maplen_spec() == (needed + 4095) / 4096,
    ensures
        slot_fits(g, n),
{
    assert(((needed + 4095) / 4096) * 4096 >= needed) by (nonlinear_arith);
}

/// Each planned group but the outermost holds, in the sense of
/// `plan_holds`, the request of the group that is to be carved out of its
/// slot.
pub open spec fn chain_holds(pending: Seq<GroupPlan>) -> bool {
    forall|i: int| 1 <= i < pending.len() ==>
        (pending[i - 1].source matches GroupSource::Carved { req, .. } && plan_holds(#[trigger] pending[i], req as nat))
}

/// The records of planned groups `p`, innermost first.
pub open spec fn records_back(p: Seq<GroupPlan>) -> Seq<usize>
    decreases p.len(),
{
    if p.len() == 0 {
        Seq::empty()
    } else {
        seq![p.last().meta] + records_back(p.drop_last())
    }
}

/// No planned group's record was in use when the request started.
pub open spec fn plans_fresh(origin: &Heap, pending: Seq<GroupPlan>) -> bool {
    forall|i: int| 0 <= i < pending.len() ==> !record_live(origin, #[trigger] pending[i].meta as int)
}

/// A record that is free or new after a step that takes nothing out of
/// use was not in use before it.
proof fn lemma_fresh_pulls_back(origin: &Heap, h: &Heap, m: usize)
    requires
        keeps_in_use(origin, h),
        h.free_metas@.contains(m) || m >= h.metas@.len(),
    ensures
        !record_live(origin, m as int),
{
}

/// Giving back the record of a planned group that was not in use when the
/// request started takes nothing out of use.
proof fn lemma_keeps_after_abandon(origin: &Heap, h: &Heap, h2: &Heap, m: usize)
    requires
        keeps_in_use(origin, h),
        !record_live(origin, m as int),
        m < h.metas@.len(),
        h2.metas@ == h.metas@.update(m as int, h2.metas@[m as int]),
        h2.free_metas@ == h.free_metas@.push(m),
    ensures
        keeps_in_use(origin, h2),
{
    assert forall|k: int| #[trigger] record_live(origin, k) implies {
        &&& h2.metas@[k].mem == origin.metas@[k].mem
        &&& h2.metas@[k].bitfields == origin.metas@[k].bitfields
        &&& !h2.free_metas@.contains(k as usize)
        &&& free_bits(h2.metas@[k]) & !free_bits(origin.metas@[k]) == 0
    } by {
        assert(k != m);
        assert(k < h.metas@.len());
        assert(h2.metas@[k] == h.metas@[k]);
        vstd::std_specs::vec::axiom_spec_len(&origin.metas);
        let ku = k as usize;
        assert(!h.free_metas@.contains(ku));
        assert(ku != m);
        if h2.free_metas@.contains(ku) {
            let q = choose|q: int| 0 <= q < h2.free_metas@.len() && h2.free_metas@[q] == ku;
            if q < h.free_metas@.len() {
                assert(h.free_metas@[q] == ku);
                assert(h.free_metas@.contains(ku));
            } else {
                assert(h2.free_metas@[q] == m);
            }
        }
    }
}

/// Every block starts at a multiple of 16: a group's memory does (the
/// bookkeeping keeps it so), and `enframe` places a slot a multiple of 16
/// bytes into it.
pub proof fn law_block_address_aligned(heap: &Heap, m: usize, p: int)
    requires
        heap.wf(),
        m < heap.metas@.len(),
        p % 16 == 0,
    ensures
        (heap.metas@[m as int].mem + p) % 16 == 0,
{
    assert(heap.metas@[m as int].mem % 16 == 0);
}

/// A request hands out only slots that were not in use when it started:
/// a slot in use then differs from any slot free then.
pub proof fn law_grant_is_new(origin: &Heap, m: usize, idx: usize, m2: usize, idx2: usize)
    requires
        record_live(origin, m as int),
        (1u32 << idx as u32) & free_bits(origin.metas@[m as int]) == 0,
        slot_free_in(origin, m2, idx2),
    ensures
        m != m2 || idx != idx2,
{
}

/// A planned group's record is untouched and in no ring or free list.
pub open spec fn plan_ok(heap: &Heap, p: GroupPlan) -> bool {
    &&& p.sc < NUM_CLASSES
    &&& source_ok(p)
    &&& p.meta < heap.metas@.len()
    &&& heap.metas@[p.meta as int].is_zero()
    &&& !heap.in_some_ring(p.meta)
    &&& !heap.free_metas@.contains(p.meta)
    &&& 1 <= p.cnt <= 32
    &&& p.active_idx < p.cnt
}

/// Each planned group but the innermost is carved out of a slot of the
/// class of the next one.
pub open spec fn linked(pending: Seq<GroupPlan>) -> bool {
    forall|i: int| 0 <= i < pending.len() - 1 ==>
        ((#[trigger] pending[i]).source matches GroupSource::Carved { sc: j, .. } && j == pending[i + 1].sc)
}

/// The innermost planned group, if any, is carved out of a slot of class
/// `cur`.
pub open spec fn top_carved_from(pending: Seq<GroupPlan>, cur: int) -> bool {
    pending.len() > 0 ==> (pending.last().source matches GroupSource::Carved { sc: j, .. } && j == cur)
}

/// The planned groups are sound against the bookkeeping and distinct.
#[verifier::opaque]
pub open spec fn plans_ok(heap: &Heap, pending: Seq<GroupPlan>) -> bool {
    &&& heap.wf()
    &&& forall|i: int| 0 <= i < pending.len() ==> plan_ok(heap, #[trigger] pending[i])
    &&& forall|i: int, k: int| 0 <= i < k < pending.len() ==> pending[i].meta != pending[k].meta
    &&& linked(pending)
}

/// What sound planned groups give: consistent bookkeeping and sound plans.
proof fn lemma_plans_ok_facts(heap: &Heap, p: Seq<GroupPlan>)
    requires
        plans_ok(heap, p),
    ensures
        heap.wf(),
        forall|i: int| 0 <= i < p.len() ==> plan_ok(heap, #[trigger] p[i]),
        linked(p),
{
    reveal(plans_ok);
}

/// No planned group is sound against consistent bookkeeping.
proof fn lemma_no_plans(heap: &Heap, p: Seq<GroupPlan>)
    requires
        heap.wf(),
        p.len() == 0,
    ensures
        plans_ok(heap, p),
{
    reveal(plans_ok);
}

/// Slot `idx` of the group with record `meta` exists and is not available.
pub open spec fn slot_taken(heap: &Heap, meta: usize, idx: usize) -> bool {
    &&& meta < heap.metas@.len()
    &&& idx <= heap.metas@[meta as int].last_idx_spec()
    &&& (1u32 << idx as u32) & heap.metas@[meta as int].avail_mask == 0
}

/// A step of slot finding for class `cur` fits the bookkeeping and the
/// planned groups.
pub open spec fn step_ok(heap: &Heap, pending: Seq<GroupPlan>, step: SlotStep, cur: int) -> bool {
    match step {
        SlotStep::Ready { meta, idx } => slot_taken(heap, meta, idx) && heap.active@[cur]@.contains(meta),
        SlotStep::Group(plan) => {
            &&& plan_ok(heap, plan)
            &&& plan.sc == cur
            &&& forall|i: int| 0 <= i < pending.len() ==> #[trigger] pending[i].meta != plan.meta
        },
    }
}

/// The address an event reports (0 for a failure).
pub open spec fn event_addr(ev: MallocEvent) -> usize {
    match ev {
        MallocEvent::Mapped(b) => b,
        MallocEvent::Carved(b) => b,
        MallocEvent::MapFailed => 0,
    }
}

/// Whether an event is the answer that a request waits for: an address
/// (16-aligned) of the kind the request waits for.
pub open spec fn answers(w: Waiting, ev: MallocEvent) -> bool {
    &&& event_addr(ev) != 0
    &&& event_addr(ev) % 16 == 0
    &&& match w {
        Waiting::LargeMap { .. } => ev is Mapped,
        Waiting::GroupMap => ev is Mapped,
        Waiting::CarvedSlot => ev is Carved,
        Waiting::Nothing => false,
    }
}

/// Slot 0 of a group is never available after its first mask is set.
proof fn lemma_slot_zero(mask: u32)
    by (bit_vector)
    requires
        mask == 0 || mask & 1u32 == 0,
    ensures
        (1u32 << 0u32) & mask == 0,
{
}

/// The planned groups stay sound across a search for a slot of class `j`.
proof fn lemma_plans_survive_slot(h0: Heap, h1: Heap, p: Seq<GroupPlan>, j: int, step: SlotStep)
    requires
        plans_ok(&h0, p),
        h1.wf(),
        0 <= j < NUM_CLASSES,
        h1.metas@.len() >= h0.metas@.len(),
        forall|t: int| 0 <= t < NUM_CLASSES && t != j ==> #[trigger] h1.active@[t] == h0.active@[t],
        forall|x: usize| #[trigger] h1.active@[j]@.contains(x) ==> h0.active@[j]@.contains(x),
        forall|x: usize| #[trigger] h1.free_metas@.contains(x) ==> h0.free_metas@.contains(x),
        step matches SlotStep::Ready { .. } ==> forall|k: usize| k < h0.metas@.len() && !h0.active@[j]@.contains(k) ==>
            #[trigger] h1.metas@[k as int] == h0.metas@[k as int],
        step matches SlotStep::Group(plan) ==> {
            &&& forall|k: usize| k < h0.metas@.len() && !h0.active@[j]@.contains(k) && k != plan.meta ==>
                #[trigger] h1.metas@[k as int] == h0.metas@[k as int]
            &&& (h0.free_metas@.contains(plan.meta) || plan.meta == h0.metas@.len())
        },
    ensures
        plans_ok(&h1, p),
        step matches SlotStep::Group(plan) ==> forall|i: int| 0 <= i < p.len() ==> #[trigger] p[i].meta != plan.meta,
{
    reveal(plans_ok);
    assert forall|i: int| 0 <= i < p.len() implies plan_ok(&h1, #[trigger] p[i]) by {
        let m = p[i].meta;
        assert(plan_ok(&h0, p[i]));
        assert(!h0.active@[j]@.contains(m)) by {
            if h0.active@[j]@.contains(m) {
                assert(h0.in_some_ring(m));
            }
        }
        if let SlotStep::Group(plan) = step {
            assert(m != plan.meta);
        }
        assert(h1.metas@[m as int] == h0.metas@[m as int]);
        assert(!h1.in_some_ring(m)) by {
            if h1.in_some_ring(m) {
                let t = choose|t: int| 0 <= t < NUM_CLASSES && (#[trigger] h1.active@[t])@.contains(m);
                if t != j {
                    assert(h0.active@[t]@.contains(m));
                    assert(h0.in_some_ring(m));
                } else {
                    assert(h0.active@[j]@.contains(m));
                }
            }
        }
        assert(!h1.free_metas@.contains(m));
    }
    if let SlotStep::Group(plan) = step {
        assert forall|i: int| 0 <= i < p.len() implies #[trigger] p[i].meta != plan.meta by {
            assert(plan_ok(&h0, p[i]));
        }
    }
}

/// The remaining planned groups stay sound once the record of the
/// innermost one is given back.
proof fn lemma_plans_survive_abandon(h0: Heap, h1: Heap, p: Seq<GroupPlan>)
    requires
        plans_ok(&h0, p),
        p.len() > 0,
        h1.wf(),
        h1.metas@ == h0.metas@.update(p.last().meta as int, h1.metas@[p.last().meta as int]),
        h1.active@ == h0.active@,
        h1.free_metas@ == h0.free_metas@.push(p.last().meta),
    ensures
        plans_ok(&h1, p.drop_last()),
{
    reveal(plans_ok);
    let q = p.drop_last();
    let top = p.last();
    assert forall|i: int| 0 <= i < q.len() implies plan_ok(&h1, #[trigger] q[i]) by {
        assert(q[i] == p[i]);
        assert(plan_ok(&h0, p[i]));
        assert(q[i].meta != top.meta);
        assert(!h1.in_some_ring(q[i].meta)) by {
            if h1.in_some_ring(q[i].meta) {
                let t = choose|t: int| 0 <= t < NUM_CLASSES && (#[trigger] h1.active@[t])@.contains(q[i].meta);
                assert(h0.active@[t]@.contains(q[i].meta));
                assert(h0.in_some_ring(q[i].meta));
            }
        }
        assert(!h1.free_metas@.contains(q[i].meta)) by {
            if h1.free_metas@.contains(q[i].meta) {
                let k = choose|k: int| 0 <= k < h1.free_metas@.len() && h1.free_metas@[k] == q[i].meta;
                if k < h0.free_metas@.len() {
                    assert(h0.free_metas@[k] == q[i].meta);
                    assert(h0.free_metas@.contains(q[i].meta));
                }
            }
        }
    }
    assert forall|i: int, k: int| 0 <= i < k < q.len() implies q[i].meta != q[k].meta by {
        assert(q[i] == p[i] && q[k] == p[k]);
    }
    assert forall|i: int| 0 <= i < q.len() - 1 implies
        ((#[trigger] q[i]).source matches GroupSource::Carved { sc: j, .. } && j == q[i + 1].sc) by {
        assert(q[i] == p[i] && q[i + 1] == p[i + 1]);
    }
}

/// The remaining planned groups stay sound once the innermost one is
/// installed (or given up).
proof fn lemma_plans_survive_install(h0: Heap, h1: Heap, p: Seq<GroupPlan>)
    requires
        plans_ok(&h0, p),
        p.len() > 0,
        h1.wf(),
        h1.metas@.len() == h0.metas@.len(),
        forall|k: int| 0 <= k < h0.metas@.len() && k != p.last().meta ==> #[trigger] h1.metas@[k] == h0.metas@[k],
        forall|t: int| 0 <= t < NUM_CLASSES && t != p.last().sc ==> #[trigger] h1.active@[t] == h0.active@[t],
        forall|x: usize| #[trigger] h1.active@[p.last().sc as int]@.contains(x) ==>
            h0.active@[p.last().sc as int]@.contains(x) || x == p.last().meta,
        forall|x: usize| #[trigger] h1.free_metas@.contains(x) ==> h0.free_metas@.contains(x) || x == p.last().meta,
    ensures
        plans_ok(&h1, p.drop_last()),
        top_carved_from(p.drop_last(), p.last().sc as int),
{
    reveal(plans_ok);
    let q = p.drop_last();
    let top = p.last();
    assert forall|i: int| 0 <= i < q.len() implies plan_ok(&h1, #[trigger] q[i]) by {
        assert(q[i] == p[i]);
        assert(plan_ok(&h0, p[i]));
        let m = q[i].meta;
        assert(m != top.meta);
        assert(!h1.in_some_ring(m)) by {
            if h1.in_some_ring(m) {
                let t = choose|t: int| 0 <= t < NUM_CLASSES && (#[trigger] h1.active@[t])@.contains(m);
                assert(h0.active@[t]@.contains(m));
                assert(h0.in_some_ring(m));
            }
        }
    }
    assert forall|i: int, k: int| 0 <= i < k < q.len() implies q[i].meta != q[k].meta by {
        assert(q[i] == p[i] && q[k] == p[k]);
    }
    assert forall|i: int| 0 <= i < q.len() - 1 implies
        ((#[trigger] q[i]).source matches GroupSource::Carved { sc: j, .. } && j == q[i + 1].sc) by {
        assert(q[i] == p[i] && q[i + 1] == p[i + 1]);
    }
    if q.len() > 0 {
        assert(q.last() == p[p.len() - 2]);
    }
}

/// A planned group for class `cur`, taken when the innermost one is carved
/// out of class `cur`, extends the planned groups soundly.
proof fn lemma_push_plan(heap: &Heap, p: Seq<GroupPlan>, plan: GroupPlan, cur: int)
    requires
        plans_ok(heap, p),
        top_carved_from(p, cur),
        step_ok(heap, p, SlotStep::Group(plan), cur),
    ensures
        plans_ok(heap, p.push(plan)),
        p.push(plan).last() == plan,
{
    reveal(plans_ok);
    let q = p.push(plan);
    assert forall|i: int| 0 <= i < q.len() implies plan_ok(heap, #[trigger] q[i]) by {
        if i < p.len() {
            assert(q[i] == p[i]);
        }
    }
    assert forall|i: int, k: int| 0 <= i < k < q.len() implies q[i].meta != q[k].meta by {
        assert(q[i] == p[i]);
        if k < p.len() {
            assert(q[k] == p[k]);
        }
    }
    assert forall|i: int| 0 <= i < q.len() - 1 implies
        ((#[trigger] q[i]).source matches GroupSource::Carved { sc: j, .. } && j == q[i + 1].sc) by {
        assert(q[i] == p[i]);
        if i + 1 < p.len() {
            assert(q[i + 1] == p[i + 1]);
        }
    }
}

/// Where the check byte before slot `i` of a group of slots of `size`
/// bytes, carved at `p`, lies.
pub open spec fn check_at(p: int, size: int, i: int) -> int {
    p + UNIT + i * size - IB
}

/// Marks a slot, framed at `p` in its group's memory, as holding a group of
/// `cnt` slots of `size` bytes: its reserved field becomes 6, and the check
/// byte before each of the new group's slots and after its last one is
/// cleared.
pub fn mark_carved(mem: &mut [u8], p: usize, cnt: usize, size: usize)
    requires
        p >= 3,
        1 <= cnt <= 32,
        16 <= size <= 131056,
        check_at(p as int, size as int, cnt as int) < old(mem)@.len(),
    ensures
        final(mem)@.len() == old(mem)@.len(),
        final(mem)@[p - 3] == (old(mem)@[p - 3] & 31) | 0xc0,
        forall|i: int| 0 <= i <= cnt ==> final(mem)@[#[trigger] check_at(p as int, size as int, i)] == 0,
        forall|k: int| 0 <= k < old(mem)@.len() && k != p - 3
            && (forall|i: int| 0 <= i <= cnt ==> k != #[trigger] check_at(p as int, size as int, i))
            ==> final(mem)@[k] == old(mem)@[k],
{
    proof {
        vstd::slice::axiom_spec_len(&*old(mem));
    }
    let h = mem[p - 3];
    mem[p - 3] = (h & 31) | 0xc0;
    let mut i: usize = 0;
    while i <= cnt
        invariant
            old(mem)@.len() <= usize::MAX,
            p >= 3,
            1 <= cnt <= 32,
            16 <= size <= 131056,
            check_at(p as int, size as int, cnt as int) < old(mem)@.len(),
            i <= cnt + 1,
            mem@.len() == old(mem)@.len(),
            mem@[p - 3] == (old(mem)@[p - 3] & 31) | 0xc0,
            forall|j: int| 0 <= j < i ==> mem@[#[trigger] check_at(p as int, size as int, j)] == 0,
            forall|k: int| 0 <= k < old(mem)@.len() && k != p - 3
                && (forall|j: int| 0 <= j < i ==> k != #[trigger] check_at(p as int, size as int, j))
                ==> mem@[k] == old(mem)@[k],
        decreases cnt + 1 - i,
    {
        assert(i * size <= cnt * size) by (nonlinear_arith) requires i <= cnt;
        let at = p + (UNIT - IB) + i * size;
        assert(at == check_at(p as int, size as int, i as int));
        let ghost before = mem@;
        mem[at] = 0;
        proof {
            assert(mem@ == before.update(at as int, 0u8));
            assert forall|j: int| 0 <= j < i implies #[trigger] check_at(p as int, size as int, j) != at by {
                assert(j * size < i * size) by (nonlinear_arith) requires j < i, size > 0;
            }
            assert forall|j: int| 0 <= j < i + 1 implies mem@[#[trigger] check_at(p as int, size as int, j)] == 0 by {
                assert(j * size <= cnt * size) by (nonlinear_arith) requires j <= cnt, size > 0;
                if j < i {
                    assert(before[check_at(p as int, size as int, j)] == 0);
                }
            }
            assert forall|k: int| 0 <= k < old(mem)@.len() && k != p - 3
                && (forall|j: int| 0 <= j < i + 1 ==> k != #[trigger] check_at(p as int, size as int, j))
                implies mem@[k] == old(mem)@[k] by {
                assert(k != check_at(p as int, size as int, i as int));
                assert forall|j: int| 0 <= j < i implies k != #[trigger] check_at(p as int, size as int, j) by {
                    assert(k != check_at(p as int, size as int, j));
                }
                assert(before[k] == old(mem)@[k]);
            }
        }
        i = i + 1;
    }
}

/// Finds a slot of class `j` for a group to be carved out of it (see
/// `Heap::alloc_slot`); what the state machine relies on.
fn slot_for_carving(heap: &mut Heap, j: usize, req: usize) -> (r: SlotStep)
    requires
        old(heap).wf(),
        j < NUM_CLASSES,
        req < MMAP_THRESHOLD,
    ensures
        final(heap).wf(),
        final(heap).metas@.len() >= old(heap).metas@.len(),
        forall|t: int| 0 <= t < NUM_CLASSES && t != j ==> #[trigger] final(heap).active@[t] == old(heap).active@[t],
        forall|x: usize| #[trigger] final(heap).active@[j as int]@.contains(x) ==> old(heap).active@[j as int]@.contains(x),
        forall|x: usize| #[trigger] final(heap).free_metas@.contains(x) ==> old(heap).free_metas@.contains(x),
        final(heap).mmap_counter == old(heap).mmap_counter,
        keeps_in_use(old(heap), final(heap)),
        r matches SlotStep::Ready { meta, idx } ==> slot_free_in(old(heap), meta, idx),
        r matches SlotStep::Ready { meta, .. } ==> final(heap).metas@[meta as int].sizeclass_spec() == j
            && stride_of(final(heap).metas@[meta as int]) >= UNIT * class_units(j as int),
        r matches SlotStep::Group(plan) ==> plan_holds(plan, req as nat),
        r matches SlotStep::Group(plan) ==>
            (plan.cnt as nat, plan.active_idx as nat, plan.source) == planned(old(heap), j as int, req as nat)
            && plan.meta == old(heap).next_record(),
        r matches SlotStep::Ready { .. } ==> forall|k: usize| k < old(heap).metas@.len() && !old(heap).active@[j as int]@.contains(k) ==>
            #[trigger] final(heap).metas@[k as int] == old(heap).metas@[k as int],
        r matches SlotStep::Group(plan) ==> {
            &&& forall|k: usize| k < old(heap).metas@.len() && !old(heap).active@[j as int]@.contains(k) && k != plan.meta ==>
                #[trigger] final(heap).metas@[k as int] == old(heap).metas@[k as int]
            &&& (old(heap).free_metas@.contains(plan.meta) || plan.meta == old(heap).metas@.len())
        },
        r matches SlotStep::Ready { meta, idx } ==> {
            &&& meta < final(heap).metas@.len()
            &&& final(heap).active@[j as int]@.len() > 0
            &&& final(heap).active@[j as int]@[0] == meta
            &&& idx <= final(heap).metas@[meta as int].last_idx_spec()
            &&& (1u32 << idx as u32) & final(heap).metas@[meta as int].avail_mask == 0
        },
        r matches SlotStep::Group(plan) ==> {
            &&& plan.sc == j
            &&& source_ok(plan)
            &&& plan.meta < final(heap).metas@.len()
            &&& final(heap).metas@[plan.meta as int].is_zero()
            &&& !final(heap).in_some_ring(plan.meta)
            &&& !final(heap).free_metas@.contains(plan.meta)
            &&& 1 <= plan.cnt <= 32
            &&& plan.active_idx < plan.cnt
        },
{
    heap.alloc_slot(j, req)
}

impl MallocJob {
    /// The job's planned groups are sound, and what it waits for matches
    /// them: a large request or none has no planned group; a mapping for a
    /// group is asked for by the innermost one; so is a carved slot.
    pub open spec fn inv(&self, heap: &Heap) -> bool {
        &&& plans_ok(heap, self.pending@)
        &&& keeps_in_use(&self.origin@, heap)
        &&& plans_fresh(&self.origin@, self.pending@)
        &&& self.pending@.len() > 0 ==> serves(self.pending@[0], self.n as nat)
        &&& chain_holds(self.pending@)
        &&& match self.waiting {
            Waiting::Nothing => self.pending@.len() == 0,
            Waiting::LargeMap { needed } => self.pending@.len() == 0 && needed == self.n + IB + UNIT
                && needed <= usize::MAX - 4095,
            Waiting::GroupMap => self.pending@.len() > 0 && self.pending@.last().source is Mapped,
            Waiting::CarvedSlot => self.pending@.len() > 0 && self.pending@.last().source is Carved,
        }
    }

    /// What an action asks of the caller, given the job it leaves: a slot
    /// granted is taken and carries the current mapping counter; a mapping
    /// is the one the job waits for; a slot to carve is taken, is framed for
    /// the whole slot of its class, and its group has the innermost planned
    /// group's count and slot size.
    pub open spec fn action_ok(&self, heap: &Heap, a: MallocAction) -> bool {
        match a {
            MallocAction::Done(g) => {
                &&& self.waiting is Nothing
                &&& slot_taken(heap, g.meta, g.idx)
                &&& slot_free_in(&self.origin@, g.meta, g.idx)
                &&& slot_fits(heap.metas@[g.meta as int], self.n as nat)
                &&& g.ctr == heap.mmap_counter
            },
            MallocAction::Fail => self.waiting is Nothing,
            MallocAction::MapPages { len } => match self.waiting {
                Waiting::LargeMap { needed } => len == needed,
                Waiting::GroupMap => self.pending@.last().source == (GroupSource::Mapped { needed: len }),
                _ => false,
            },
            MallocAction::Carve { meta, idx, n, ctr, cnt, size } => {
                let top = self.pending@.last();
                &&& self.waiting is CarvedSlot
                &&& slot_taken(heap, meta, idx)
                &&& slot_free_in(&self.origin@, meta, idx)
                &&& slot_fits(heap.metas@[meta as int], n as nat)
                &&& ctr == heap.mmap_counter
                &&& top.source matches GroupSource::Carved { sc: j, .. }
                &&& n == UNIT * class_units(j as int) - IB
                &&& cnt == top.cnt
                &&& size == UNIT * class_units(top.sc as int)
            },
        }
    }

    /// Hands out slot `idx` of group `meta`, of class `cur`: granted to the
    /// request when no group is planned, else carved for the innermost
    /// planned group.
    #[verifier::rlimit(40)]
    fn grant_or_carve(&mut self, heap: &Heap, meta: usize, idx: usize, cur: usize) -> (a: MallocAction)
        requires
            plans_ok(heap, old(self).pending@),
            cur < NUM_CLASSES,
            top_carved_from(old(self).pending@, cur as int),
            slot_taken(heap, meta, idx),
            keeps_in_use(&old(self).origin@, heap),
            plans_fresh(&old(self).origin@, old(self).pending@),
            slot_free_in(&old(self).origin@, meta, idx),
            old(self).pending@.len() > 0 ==> serves(old(self).pending@[0], old(self).n as nat),
            old(self).pending@.len() == 0 ==> slot_fits(heap.metas@[meta as int], old(self).n as nat),
            chain_holds(old(self).pending@),
            heap.metas@[meta as int].sizeclass_spec() == cur,
            old(self).pending@.len() > 0 ==> stride_of(heap.metas@[meta as int]) >= UNIT * class_units(cur as int),
        ensures
            final(self).inv(heap),
            final(self).n == old(self).n,
            final(self).origin == old(self).origin,
            final(self).pending@ == old(self).pending@,
            final(self).action_ok(heap, a),
            match a {
                MallocAction::Done(g) => g.meta == meta && g.idx == idx,
                MallocAction::Carve { meta: m, idx: i, .. } => m == meta && i == idx,
                _ => false,
            },
    {
        let np = self.pending.len();
        if np == 0 {
            self.waiting = Waiting::Nothing;
            return MallocAction::Done(Grant { meta, idx, ctr: heap.mmap_counter as usize });
        }
        let top = self.pending[np - 1];
        proof {
            lemma_plans_ok_facts(heap, self.pending@);
            assert(plan_ok(heap, self.pending@[np - 1]));
            crate::meta::lemma_class_units_bounds(cur as int);
            crate::meta::lemma_class_units_bounds(top.sc as int);
        }
        self.waiting = Waiting::CarvedSlot;
        let top_units = size_class(top.sc);
        assert(top_units <= 8191);
        MallocAction::Carve {
            meta,
            idx,
            n: UNIT * size_class(cur) as usize - IB,
            ctr: heap.mmap_counter as usize,
            cnt: top.cnt,
            size: UNIT * top_units as usize,
        }
    }

    /// Carries on from a new group planned for class `sc`: one that needs a
    /// mapping waits for it; one to be carved out of a larger class waits
    /// while a slot of that class is found, which is then carved for it, or
    /// which needs a new group in turn.
    #[verifier::spinoff_prover]
    fn drive(&mut self, heap: &mut Heap, first: GroupPlan, sc: usize) -> (a: MallocAction)
        requires
            plans_ok(old(heap), old(self).pending@),
            sc < NUM_CLASSES,
            top_carved_from(old(self).pending@, sc as int),
            step_ok(old(heap), old(self).pending@, SlotStep::Group(first), sc as int),
            keeps_in_use(&old(self).origin@, old(heap)),
            plans_fresh(&old(self).origin@, old(self).pending@),
            !record_live(&old(self).origin@, first.meta as int),
            old(self).pending@.len() > 0 ==> serves(old(self).pending@[0], old(self).n as nat),
            old(self).pending@.len() == 0 ==> serves(first, old(self).n as nat),
            chain_holds(old(self).pending@),
            old(self).pending@.len() > 0 ==> (old(self).pending@.last().source matches GroupSource::Carved { req, .. }
                && plan_holds(first, req as nat)),
        ensures
            final(self).inv(final(heap)),
            final(self).n == old(self).n,
            final(self).origin == old(self).origin,
            final(self).action_ok(final(heap), a),
            !(a is Fail),
            !(final(self).waiting is LargeMap),
            final(self).pending@.len() > old(self).pending@.len(),
            final(self).pending@[old(self).pending@.len() as int] == first,
            final(self).pending@.subrange(0, old(self).pending@.len() as int) == old(self).pending@,
        decreases NUM_CLASSES - sc,
    {
        proof {
            lemma_push_plan(heap, self.pending@, first, sc as int);
        }
        let ghost before = self.pending@;
        self.pending.push(first);
        proof {
            assert forall|i: int| 0 <= i < self.pending@.len() implies
                !record_live(&self.origin@, #[trigger] self.pending@[i].meta as int) by {
                if i < before.len() {
                    assert(self.pending@[i] == before[i]);
                }
            }
            if before.len() > 0 {
                assert(self.pending@[0] == before[0]);
            }
            assert forall|i: int| 1 <= i < self.pending@.len() implies
                (self.pending@[i - 1].source matches GroupSource::Carved { req, .. }
                    && plan_holds(#[trigger] self.pending@[i], req as nat)) by {
                if i < before.len() {
                    assert(self.pending@[i] == before[i] && self.pending@[i - 1] == before[i - 1]);
                } else {
                    assert(self.pending@[i - 1] == before.last());
                }
            }
            assert(self.pending@.subrange(0, before.len() as int) =~= before);
        }
        match first.source {
            GroupSource::Mapped { needed } => {
                self.waiting = Waiting::GroupMap;
                MallocAction::MapPages { len: needed }
            },
            GroupSource::Carved { sc: j, req } => {
                let ghost h0 = *heap;
                proof {
                    lemma_plans_ok_facts(heap, self.pending@);
                }
                let step = slot_for_carving(heap, j, req);
                proof {
                    lemma_plans_survive_slot(h0, *heap, self.pending@, j as int, step);
                    lemma_keeps_trans(&self.origin@, &h0, heap);
                }
                match step {
                    SlotStep::Ready { meta, idx } => {
                        proof {
                            lemma_free_pulls_back(&self.origin@, &h0, meta, idx);
                        }
                        self.grant_or_carve(heap, meta, idx, j)
                    },
                    SlotStep::Group(p2) => {
                        proof {
                            lemma_fresh_pulls_back(&self.origin@, &h0, p2.meta);
                        }
                        let ghost mid = self.pending@;
                        let a = self.drive(heap, p2, j);
                        proof {
                            assert(self.pending@.subrange(0, mid.len() as int) == mid);
                            assert(self.pending@[before.len() as int] == mid[before.len() as int]);
                            assert(self.pending@.subrange(0, before.len() as int) =~= mid.subrange(0, before.len() as int));
                        }
                        a
                    },
                }
            },
        }
    }

    /// Gives back the records of all planned groups, innermost first, when
    /// the request fails.
    fn give_back(&mut self, heap: &mut Heap)
        requires
            plans_ok(old(heap), old(self).pending@),
            keeps_in_use(&old(self).origin@, old(heap)),
            plans_fresh(&old(self).origin@, old(self).pending@),
        ensures
            final(self).pending@.len() == 0,
            final(self).n == old(self).n,
            final(self).origin == old(self).origin,
            final(self).waiting == old(self).waiting,
            final(heap).wf(),
            keeps_in_use(&final(self).origin@, final(heap)),
            final(heap).free_metas@ == old(heap).free_metas@ + records_back(old(self).pending@),
            final(heap).active@ == old(heap).active@,
            final(heap).usage_by_class@ == old(heap).usage_by_class@,
    {
        let ghost p0 = self.pending@;
        let ghost f0 = heap.free_metas@;
        proof {
            assert(f0 + records_back(p0) =~= heap.free_metas@ + records_back(self.pending@));
        }
        while self.pending.len() > 0
            invariant
                plans_ok(heap, self.pending@),
                keeps_in_use(&self.origin@, heap),
                plans_fresh(&self.origin@, self.pending@),
                self.n == old(self).n,
                self.origin == old(self).origin,
                self.waiting == old(self).waiting,
                f0 + records_back(p0) == heap.free_metas@ + records_back(self.pending@),
                heap.active@ == old(heap).active@,
                heap.usage_by_class@ == old(heap).usage_by_class@,
            decreases self.pending@.len(),
        {
            let ghost p1 = self.pending@;
            let ghost h1 = *heap;
            proof {
                lemma_plans_ok_facts(heap, p1);
                assert(plan_ok(heap, p1[p1.len() - 1]));
                assert(!record_live(&self.origin@, p1[p1.len() - 1].meta as int));
            }
            let top = self.pending.pop().unwrap();
            assert(top == p1.last());
            heap.abandon_group(&top);
            proof {
                lemma_keeps_after_abandon(&self.origin@, &h1, heap, top.meta);
                lemma_plans_survive_abandon(h1, *heap, p1);
                assert(self.pending@ == p1.drop_last());
                assert forall|i: int| 0 <= i < self.pending@.len() implies
                    !record_live(&self.origin@, #[trigger] self.pending@[i].meta as int) by {
                    assert(self.pending@[i] == p1[i]);
                }
                assert(records_back(p1) == seq![top.meta] + records_back(p1.drop_last()));
                assert(h1.free_metas@ + records_back(p1) =~= heap.free_metas@ + records_back(self.pending@));
            }
        }
        proof {
            lemma_plans_ok_facts(heap, self.pending@);
            assert(records_back(self.pending@) == Seq::<usize>::empty());
            assert(heap.free_metas@ + records_back(self.pending@) =~= heap.free_metas@);
        }
    }

    /// Starts a request for `n` bytes. A request too large to serve fails;
    /// one at or above the mapping threshold asks for a mapping of
    /// `n + IB + UNIT` bytes; a smaller one looks for a slot of its class
    /// (see `Heap::malloc_small`) and carries on from there.
    #[verifier::spinoff_prover]
    #[verifier::rlimit(40)]
    pub fn start(heap: &mut Heap, n: usize) -> (r: (MallocJob, MallocAction))
        requires
            old(heap).wf(),
        ensures
            r.0.inv(final(heap)),
            r.0.n == n,
            r.0.origin@ == *old(heap),
            r.0.action_ok(final(heap), r.1),
            overflows(n as nat) ==> r.1 is Fail && *final(heap) == *old(heap),
            !overflows(n as nat) && n >= MMAP_THRESHOLD ==>
                r.1 == (MallocAction::MapPages { len: (n + IB + UNIT) as usize }) && *final(heap) == *old(heap),
            !overflows(n as nat) && n < MMAP_THRESHOLD ==> !(r.1 is Fail) && !(r.0.waiting is LargeMap),
            !overflows(n as nat) && n < MMAP_THRESHOLD ==> {
                let sc = serving_class(old(heap), class_for(n as nat));
                let o = old(heap).offer(sc);
                if old(heap).has_slot(sc) {
                    &&& r.1 matches MallocAction::Done(g)
                    &&& g.meta == o.0
                    &&& is_lowest_bit(1u32 << g.idx as u32, o.1)
                    &&& final(heap).metas@ == old(heap).taken_metas(sc, 1u32 << g.idx as u32)
                    &&& final(heap).active@[sc]@ == old(heap).taken_ring(sc)
                    &&& final(heap).bounces@ == old(heap).taken_bounces(sc)
                } else {
                    let p = r.0.pending@[0];
                    &&& r.0.pending@.len() > 0
                    &&& p.sc == sc
                    &&& (p.cnt as nat, p.active_idx as nat, p.source) == planned(old(heap), sc, n as nat)
                    &&& p.meta == old(heap).next_record()
                }
            },
    {
        let ghost h0 = *heap;
        proof {
            lemma_no_plans(heap, Seq::empty());
            lemma_keeps_refl(heap);
        }
        if size_overflows(n) {
            return (MallocJob { n, waiting: Waiting::Nothing, pending: Vec::new(), origin: Ghost(h0) },
                MallocAction::Fail);
        }
        if n >= MMAP_THRESHOLD {
            let needed = n + IB + UNIT;
            return (MallocJob { n, waiting: Waiting::LargeMap { needed }, pending: Vec::new(), origin: Ghost(h0) },
                MallocAction::MapPages { len: needed });
        }
        let (sc, step) = heap.malloc_small(n);
        let mut job = MallocJob { n, waiting: Waiting::Nothing, pending: Vec::new(), origin: Ghost(h0) };
        proof {
            lemma_no_plans(heap, job.pending@);
            lemma_serving_fits(&h0, n as nat);
        }
        let a = match step {
            SlotStep::Ready { meta, idx } => job.grant_or_carve(heap, meta, idx, sc),
            SlotStep::Group(plan) => job.drive(heap, plan, sc),
        };
        (job, a)
    }

    /// Carries on once the caller reports back. A mapping for a large
    /// request becomes a group of one slot (see `Heap::register_large`),
    /// which is granted. A mapping or carved slot for the innermost planned
    /// group installs it (see `Heap::install_group`), and its slot 0 goes
    /// on outwards: granted, or carved for the next planned group. Anything
    /// else fails the request; a failed mapping for a planned group gives
    /// its record back.
    pub fn resume(&mut self, heap: &mut Heap, ev: MallocEvent) -> (a: MallocAction)
        requires
            old(self).inv(old(heap)),
        ensures
            final(self).inv(final(heap)),
            final(self).n == old(self).n,
            final(self).origin == old(self).origin,
            final(self).action_ok(final(heap), a),
            !answers(old(self).waiting, ev) ==> a is Fail,
            !answers(old(self).waiting, ev) ==> final(self).pending@.len() == 0
                && final(heap).free_metas@ == old(heap).free_metas@ + records_back(old(self).pending@),
            answers(old(self).waiting, ev) && old(self).waiting is LargeMap ==> {
                &&& a matches MallocAction::Done(g)
                &&& g.idx == 0
                &&& final(heap).metas@[g.meta as int].mem == event_addr(ev)
                &&& final(heap).metas@[g.meta as int].sizeclass_spec() == 63
                &&& large_record(final(heap).metas@[g.meta as int], event_addr(ev), (old(self).n + IB + UNIT) as nat)
                &&& g.meta == old(heap).next_record()
                &&& final(heap).mmap_counter == vstd::wrapping::u32_specs::wrapping_add(old(heap).mmap_counter, 1)
            },
            answers(old(self).waiting, ev) && !(old(self).waiting is LargeMap) ==> {
                let top = old(self).pending@.last();
                &&& final(self).pending@ == old(self).pending@.drop_last()
                &&& final(heap).metas@[top.meta as int].mem == event_addr(ev)
                &&& final(heap).metas@[top.meta as int].sizeclass_spec() == top.sc
                &&& installed(final(heap).metas@[top.meta as int], top, event_addr(ev))
                &&& final(heap).metas@ == old(heap).metas@.update(top.meta as int, final(heap).metas@[top.meta as int])
                &&& final(heap).active@[top.sc as int]@ == old(heap).active@[top.sc as int]@.push(top.meta)
                &&& forall|t: int| 0 <= t < NUM_CLASSES && t != top.sc ==> #[trigger] final(heap).active@[t] == old(heap).active@[t]
                &&& final(heap).usage_by_class@ == old(heap).usage_by_class@.update(top.sc as int,
                    vstd::wrapping::usize_specs::wrapping_add(old(heap).usage_by_class@[top.sc as int], top.cnt))
                &&& final(heap).free_metas@ == old(heap).free_metas@
                &&& final(heap).counters_kept(old(heap))
                &&& final(heap).mmap_counter == old(heap).mmap_counter
                &&& match a {
                    MallocAction::Done(g) => g.meta == top.meta && g.idx == 0,
                    MallocAction::Carve { meta, idx, .. } => meta == top.meta && idx == 0,
                    _ => false,
                }
            },
    {
        let w = self.waiting;
        self.waiting = Waiting::Nothing;
        proof {
            lemma_plans_ok_facts(heap, self.pending@);
        }
        match w {
            Waiting::Nothing => MallocAction::Fail,
            Waiting::LargeMap { needed } => {
                if let MallocEvent::Mapped(base) = ev {
                    if base != 0 && base % 16 == 0 {
                        let ghost hb = *heap;
                        let (m, ctr) = heap.register_large(base, needed);
                        proof {
                            lemma_no_plans(heap, self.pending@);
                            lemma_fresh_pulls_back(&self.origin@, &hb, m);
                            lemma_keeps_trans(&self.origin@, &hb, heap);
                            lemma_slot_zero(heap.metas@[m as int].avail_mask);
                            lemma_large_fits(heap.metas@[m as int], self.n as nat, needed as nat);
                        }
                        return MallocAction::Done(Grant { meta: m, idx: 0, ctr });
                    }
                }
                MallocAction::Fail
            },
            Waiting::GroupMap | Waiting::CarvedSlot => {
                let for_map = match w {
                    Waiting::GroupMap => true,
                    _ => false,
                };
                let addr = match ev {
                    MallocEvent::Mapped(b) => if for_map { b } else { 0 },
                    MallocEvent::Carved(b) => if for_map { 0 } else { b },
                    MallocEvent::MapFailed => 0,
                };
                let ghost p0 = self.pending@;
                let ghost h0 = *heap;
                let top = match self.pending.pop() {
                    Some(t) => t,
                    None => {
                        return MallocAction::Fail;
                    },
                };
                assert(top == p0.last());
                assert(plan_ok(&h0, p0[p0.len() - 1]));
                assert(!record_live(&self.origin@, p0[p0.len() - 1].meta as int));
                if addr == 0 || addr % 16 != 0 {
                    heap.abandon_group(&top);
                    let ghost h1 = *heap;
                    proof {
                        lemma_keeps_after_abandon(&self.origin@, &h0, heap, top.meta);
                        lemma_plans_survive_abandon(h0, *heap, p0);
                        assert(self.pending@ == p0.drop_last());
                        assert forall|i: int| 0 <= i < self.pending@.len() implies
                            !record_live(&self.origin@, #[trigger] self.pending@[i].meta as int) by {
                            assert(self.pending@[i] == p0[i]);
                        }
                    }
                    self.give_back(heap);
                    proof {
                        lemma_no_plans(heap, self.pending@);
                        assert(records_back(p0) == seq![top.meta] + records_back(p0.drop_last()));
                        assert(heap.free_metas@ =~= h0.free_metas@ + records_back(p0));
                    }
                    return MallocAction::Fail;
                }
                heap.install_group(&top, addr);
                proof {
                    let g = heap.metas@[top.meta as int];
                    lemma_slot_zero(g.avail_mask);
                    assert forall|x: usize| #[trigger] heap.active@[top.sc as int]@.contains(x) implies
                        h0.active@[top.sc as int]@.contains(x) || x == top.meta by {
                        let s = heap.active@[top.sc as int]@;
                        let k = choose|k: int| 0 <= k < s.len() && s[k] == x;
                        if k < s.len() - 1 {
                            assert(h0.active@[top.sc as int]@[k] == x);
                        }
                    }
                    lemma_plans_survive_install(h0, *heap, p0);
                    assert(self.pending@ == p0.drop_last());
                    lemma_keeps_trans(&self.origin@, &h0, heap);
                    assert forall|i: int| 0 <= i < self.pending@.len() implies
                        !record_live(&self.origin@, #[trigger] self.pending@[i].meta as int) by {
                        assert(self.pending@[i] == p0[i]);
                    }
                    assert forall|i: int| 1 <= i < self.pending@.len() implies
                        (self.pending@[i - 1].source matches GroupSource::Carved { req, .. }
                            && plan_holds(#[trigger] self.pending@[i], req as nat)) by {
                        assert(self.pending@[i] == p0[i] && self.pending@[i - 1] == p0[i - 1]);
                    }
                    if self.pending@.len() > 0 {
                        assert(self.pending@[0] == p0[0]);
                        let k = p0.len() - 1;
                        assert(p0[k] == top);
                        assert(plan_ok(&h0, p0[k - 1]));
                        assert(p0[k - 1] == self.pending@.last());
                        lemma_installed_carvable(p0[k - 1], top, heap.metas@[top.meta as int]);
                    } else {
                        assert(top == p0[0]);
                        lemma_installed_fits(top, heap.metas@[top.meta as int], self.n as nat);
                    }
                }
                self.grant_or_carve(heap, top.meta, 0, top.sc)
            },
        }
    }
}

} // verus!
