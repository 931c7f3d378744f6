//! The bump allocator used before the full allocator is ready: memory is
//! handed out from the program break, grown a page at a time, or from
//! fresh mappings when the break cannot grow. The decisions are here; the
//! caller makes the system calls and reports their results.

use vstd::prelude::*;
use crate::random::SpinLock;
use crate::group::page_round;

verus! {

/// The alignment of the bump allocator's blocks.
pub const ALIGN: usize = 16;

/// How much stack the allocator assumes below a stack top.
pub const STACK_ESTIMATE: usize = 0x80_0000;

/// The largest mapping step.
pub const MMAP_STEP_MAX: u8 = 12;

/// The page size of the bump allocator.
pub const BUMP_PAGE: usize = 4096;

/// Takes the bump allocator's lock. With exclusive access the lock must be
/// free, else the caller would spin forever.
pub fn bump_lock_acquire(l: &mut SpinLock)
    requires
        !old(l).locked,
    ensures
        final(l).locked,
{
    l.locked = true;
}

/// Releases the bump allocator's lock.
pub fn bump_lock_release(l: &mut SpinLock)
    ensures
        !final(l).locked,
{
    l.locked = false;
}

/// Rounds `x` up to a whole number of pages.
pub fn page_align(x: usize) -> (r: usize)
    requires
        x + 4095 <= usize::MAX,
    ensures
        r == page_round(x as nat),
        r >= x,
{
    crate::group::round_to_page(x)
}

/// Whether the range from `old` to `new`, when not empty, comes within
/// the stack estimate below the stack top `top`.
pub open spec fn near_stack(old: usize, new: usize, top: usize) -> bool {
    let bottom = if top > STACK_ESTIMATE { top - STACK_ESTIMATE } else { 0 };
    new > old && new > bottom && old < top
}

/// Whether growing the break from `old` to `new` could run into a stack:
/// the one the auxiliary vector places at `auxv_top` (0 if unknown), or
/// the current one, whose top is near `stack_top`.
pub open spec fn collides(old: usize, new: usize, auxv_top: usize, stack_top: usize) -> bool {
    (auxv_top != 0 && near_stack(old, new, auxv_top)) || near_stack(old, new, stack_top)
}

/// Checks whether growing the break from `old` to `new` could run into a
/// stack (see `collides`).
pub fn check_stack_collision(old: usize, new: usize, auxv_top: usize, stack_top: usize) -> (r: bool)
    ensures
        r == collides(old, new, auxv_top, stack_top),
{
    if new <= old {
        return false;
    }
    if auxv_top != 0 {
        let bottom = if auxv_top > STACK_ESTIMATE { auxv_top - STACK_ESTIMATE } else { 0 };
        if new > bottom && old < auxv_top {
            return true;
        }
    }
    let cur_bottom = if stack_top > STACK_ESTIMATE { stack_top - STACK_ESTIMATE } else { 0 };
    if new > cur_bottom && old < stack_top {
        return true;
    }
    false
}

/// The alignment for a block of `n` bytes: the least power of two at
/// least `n`, at most 16.
pub open spec fn align_for(n: nat) -> nat {
    if n <= 1 {
        1
    } else if n <= 2 {
        2
    } else if n <= 4 {
        4
    } else if n <= 8 {
        8
    } else {
        16
    }
}

/// `cur` rounded up to a multiple of `a`.
pub open spec fn align_up(cur: nat, a: nat) -> nat {
    if cur % a == 0 { cur } else { (cur + (a - cur % a)) as nat }
}

/// The smallest new mapping for mapping step `step` (at most 12): a page,
/// doubled for every two steps.
pub open spec fn step_min(step: nat) -> nat {
    let k = step / 2;
    if k == 0 {
        4096
    } else if k == 1 {
        8192
    } else if k == 2 {
        16384
    } else if k == 3 {
        32768
    } else if k == 4 {
        65536
    } else if k == 5 {
        131072
    } else {
        262144
    }
}

/// The mapping for a block of `n` bytes when the break cannot grow, with
/// mapping step `step` and `room` bytes left in the current area: its
/// length, whether it becomes the new current area, and the next step.
/// The mapping is the block's pages; but when that wastes over an eighth,
/// and the step's smallest mapping would not fit the block in the room
/// left, it becomes a new area of at least that smallest mapping (the step
/// moving on, up to 12, when that enlarges it).
pub open spec fn map_plan(n: nat, step: u8, room: nat) -> (nat, bool, u8) {
    let req = page_round(n);
    let min = step_min(step as nat);
    if (req - n) > req / 8 && vstd::wrapping::usize_specs::wrapping_sub(min as usize, n as usize) > room {
        if req < min {
            (min, true, if step < MMAP_STEP_MAX { (step + 1) as u8 } else { step })
        } else {
            (req, true, step)
        }
    } else {
        (req, false, step)
    }
}

/// The state of the bump allocator: the program break it knows, the
/// current area from `cur` to `end`, and the mapping step.
pub struct BumpHeap {
    pub brk: usize,
    pub cur: usize,
    pub end: usize,
    pub mmap_step: u8,
}

/// What the caller is to do next for a bump request.
#[derive(Clone, Copy)]
pub enum BumpAction {
    /// The block starts here.
    Done(usize),
    /// The request cannot be served.
    Fail,
    /// Ask where the program break is.
    QueryBrk,
    /// Ask for the program break to move to this address.
    SetBrk(usize),
    /// Map this many bytes.
    MapPages { len: usize },
}

/// What the caller reports back.
#[derive(Clone, Copy)]
pub enum BumpEvent {
    /// The program break is (now) here.
    Brk(usize),
    /// The mapping starts here.
    Mapped(usize),
    /// The mapping failed.
    MapFailed,
}

/// What a bump request waits for.
#[derive(Clone, Copy)]
pub enum BumpStage {
    Idle,
    QueryBrk,
    SetBrk { to: usize },
    Mapping { len: usize, new_area: bool },
}

/// A bump request in progress: the block size, the growth of the break it
/// asks for, the stack tops to keep clear of, and what it waits for.
pub struct BumpJob {
    pub n: usize,
    pub req: usize,
    pub auxv_top: usize,
    pub stack_top: usize,
    pub stage: BumpStage,
}

impl BumpHeap {
    /// A bump allocator that has handed out nothing.
    pub fn new() -> (h: BumpHeap)
        ensures
            h.wf(),
            h.brk == 0 && h.cur == 0 && h.end == 0 && h.mmap_step == 0,
    {
        BumpHeap { brk: 0, cur: 0, end: 0, mmap_step: 0 }
    }

    /// The current area is in order: its start is at most its end, its
    /// end is 16-aligned, it is empty until there is one, and the step is
    /// at most 12.
    pub open spec fn wf(&self) -> bool {
        &&& self.cur <= self.end
        &&& self.end % 16 == 0
        &&& (self.cur == 0 ==> self.end == 0)
        &&& self.mmap_step <= MMAP_STEP_MAX
    }
}

/// Rounding a position within a 16-aligned area up to a power of two of
/// at most 16 stays within it.
proof fn lemma_align_within(cur: nat, a: nat, end: nat)
    requires
        cur <= end,
        end % 16 == 0,
        a == 1 || a == 2 || a == 4 || a == 8 || a == 16,
    ensures
        align_up(cur, a) <= end,
{
    assert(end % a == 0) by (nonlinear_arith)
        requires end % 16 == 0, a == 1 || a == 2 || a == 4 || a == 8 || a == 16;
    if cur % a != 0 {
        let q = cur / a;
        let k = end / a;
        assert(cur == q * a + cur % a) by (nonlinear_arith) requires a > 0, q == cur / a;
        assert(end == k * a) by (nonlinear_arith) requires a > 0, k == end / a, end % a == 0;
        assert(k * a > q * a) by (nonlinear_arith) requires k * a >= cur, cur > q * a;
        assert(k > q) by (nonlinear_arith) requires k * a > q * a, a > 0;
        assert(k * a >= (q + 1) * a) by (nonlinear_arith) requires k >= q + 1, a > 0;
    }
}

/// Rounds `cur` up to a multiple of `a`.
fn align_cur(cur: usize, a: usize) -> (r: usize)
    requires
        1 <= a <= 16,
        cur + a <= usize::MAX + 1,
    ensures
        r == align_up(cur as nat, a as nat),
{
    let rem = cur % a;
    if rem == 0 { cur } else { cur + (a - rem) }
}

/// The smallest new mapping for step `step` (see `step_min`).
fn min_mapping(step: u8) -> (r: usize)
    requires
        step <= MMAP_STEP_MAX,
    ensures
        r == step_min(step as nat),
{
    let k = step / 2;
    if k == 0 {
        BUMP_PAGE
    } else if k == 1 {
        BUMP_PAGE * 2
    } else if k == 2 {
        BUMP_PAGE * 4
    } else if k == 3 {
        BUMP_PAGE * 8
    } else if k == 4 {
        BUMP_PAGE * 16
    } else if k == 5 {
        BUMP_PAGE * 32
    } else {
        BUMP_PAGE * 64
    }
}

/// How a request for `n` bytes that does not fit the current area goes
/// on, the break to grow by `req`: moving the break when the area ends at
/// it, the growth fits the address space, and stays clear of the stacks;
/// else mapping (see `map_plan`).
pub open spec fn grow_action(h: BumpHeap, n: nat, req: nat, auxv_top: usize, stack_top: usize) -> BumpAction {
    if h.brk == h.end && req < usize::MAX - h.brk && !collides(h.brk, (h.brk + req) as usize, auxv_top, stack_top) {
        BumpAction::SetBrk((h.brk + req) as usize)
    } else {
        BumpAction::MapPages { len: map_plan(n, h.mmap_step, (h.end - h.cur) as nat).0 as usize }
    }
}

/// The mapping step after `grow_action`.
pub open spec fn grow_step(h: BumpHeap, n: nat, req: nat, auxv_top: usize, stack_top: usize) -> u8 {
    if grow_action(h, n, req, auxv_top, stack_top) is SetBrk {
        h.mmap_step
    } else {
        map_plan(n, h.mmap_step, (h.end - h.cur) as nat).2
    }
}

impl BumpJob {
    /// The job waits for the answer to action `a`: nothing once it is done
    /// or failed, the break for a query, the break it asked for, or a
    /// mapping of the length it asked for.
    pub open spec fn stage_of(&self, a: BumpAction) -> bool {
        match a {
            BumpAction::Done(_) => self.stage is Idle,
            BumpAction::Fail => self.stage is Idle,
            BumpAction::QueryBrk => self.stage is QueryBrk,
            BumpAction::SetBrk(to) => self.stage == (BumpStage::SetBrk { to }),
            BumpAction::MapPages { len } => self.stage matches BumpStage::Mapping { len: l, .. } && l == len,
        }
    }

    /// The request matches the allocator's state for what it waits for.
    pub open spec fn inv(&self, h: &BumpHeap) -> bool {
        &&& h.wf()
        &&& match self.stage {
            BumpStage::Idle => true,
            BumpStage::QueryBrk => {
                &&& 1 <= self.n <= usize::MAX / 2
                &&& h.cur == 0
                &&& self.req >= self.n
                &&& self.req % 4096 == 0
            },
            BumpStage::SetBrk { to } => {
                &&& 1 <= self.n <= usize::MAX / 2
                &&& h.brk == h.end
                &&& to == h.brk + self.req
                &&& self.req % 4096 == 0
                &&& h.cur != 0
                &&& self.n <= to - h.cur
            },
            BumpStage::Mapping { len, new_area } => {
                &&& 1 <= self.n <= len
                &&& len % 4096 == 0
            },
        }
    }

    /// Hands out the block at the start of the current area.
    fn finish(&mut self, h: &mut BumpHeap) -> (a: BumpAction)
        requires
            old(h).wf(),
            old(h).cur != 0,
            old(self).n <= old(h).end - old(h).cur,
        ensures
            final(h).wf(),
            a == BumpAction::Done(old(h).cur),
            final(h).cur == old(h).cur + old(self).n,
            final(h).end == old(h).end,
            final(h).brk == old(h).brk,
            final(h).mmap_step == old(h).mmap_step,
            final(self).stage is Idle,
            final(self).n == old(self).n,
    {
        let p = h.cur;
        h.cur = h.cur + self.n;
        self.stage = BumpStage::Idle;
        BumpAction::Done(p)
    }

    /// Grows for a request that does not fit the current area (see
    /// `grow_action`).
    fn grow(&mut self, h: &mut BumpHeap) -> (a: BumpAction)
        requires
            old(h).wf(),
            old(h).cur != 0,
            1 <= old(self).n <= usize::MAX / 2,
            old(self).req % 4096 == 0,
            old(self).n <= old(h).end + old(self).req - old(h).cur,
        ensures
            final(self).inv(final(h)),
            final(self).n == old(self).n,
            a == grow_action(*old(h), old(self).n as nat, old(self).req as nat, old(self).auxv_top, old(self).stack_top),
            final(self).stage_of(a),
            a is MapPages ==> final(self).stage == (BumpStage::Mapping {
                len: map_plan(old(self).n as nat, old(h).mmap_step, (old(h).end - old(h).cur) as nat).0 as usize,
                new_area: map_plan(old(self).n as nat, old(h).mmap_step, (old(h).end - old(h).cur) as nat).1,
            }),
            final(h).mmap_step == grow_step(*old(h), old(self).n as nat, old(self).req as nat, old(self).auxv_top, old(self).stack_top),
            final(h).cur == old(h).cur,
            final(h).end == old(h).end,
            final(h).brk == old(h).brk,
    {
        let brk = h.brk;
        if brk == h.end && self.req < usize::MAX - brk
            && !check_stack_collision(brk, brk + self.req, self.auxv_top, self.stack_top) {
            let to = brk + self.req;
            self.stage = BumpStage::SetBrk { to };
            return BumpAction::SetBrk(to);
        }
        self.map_instead(h)
    }

    /// Asks for a mapping for the request (see `map_plan`).
    fn map_instead(&mut self, h: &mut BumpHeap) -> (a: BumpAction)
        requires
            old(h).wf(),
            1 <= old(self).n <= usize::MAX / 2,
        ensures
            final(self).inv(final(h)),
            final(self).n == old(self).n,
            ({
                let plan = map_plan(old(self).n as nat, old(h).mmap_step, (old(h).end - old(h).cur) as nat);
                &&& a == BumpAction::MapPages { len: plan.0 as usize }
                &&& final(self).stage == BumpStage::Mapping { len: plan.0 as usize, new_area: plan.1 }
                &&& final(h).mmap_step == plan.2
            }),
            final(h).cur == old(h).cur,
            final(h).end == old(h).end,
            final(h).brk == old(h).brk,
    {
        let n = self.n;
        let mut req = page_align(n);
        let mut new_area = false;
        let step = h.mmap_step;
        let min = min_mapping(step);
        if req - n > req / 8 {
            if min.wrapping_sub(n) > h.end - h.cur {
                if req < min {
                    req = min;
                    if step < MMAP_STEP_MAX {
                        h.mmap_step = step + 1;
                    }
                }
                new_area = true;
            }
        }
        self.stage = BumpStage::Mapping { len: req, new_area };
        BumpAction::MapPages { len: req }
    }

    /// Starts a request for `n` bytes (0 counting as 1): too large a
    /// request (over half the address space) fails; the block is aligned
    /// to the least power of two at least its size, at most 16, and taken
    /// from the current area if it fits. Otherwise the break is to grow by
    /// the pages missing: asked for first when there is no area yet, then
    /// as `grow_action` says.
    pub fn start(h: &mut BumpHeap, n: usize, auxv_top: usize, stack_top: usize) -> (r: (BumpJob, BumpAction))
        requires
            old(h).wf(),
        ensures
            r.0.inv(final(h)),
            r.0.stage_of(r.1),
            n > usize::MAX / 2 ==> r.1 is Fail && *final(h) == *old(h),
            n <= usize::MAX / 2 ==> {
                let n1: nat = if n == 0 { 1 } else { n as nat };
                let c = align_up(old(h).cur as nat, align_for(n1));
                let req = page_round((n1 - (old(h).end - c)) as nat);
                let hc = BumpHeap { cur: c as usize, ..*old(h) };
                &&& r.0.n == n1
                &&& final(h).end == old(h).end
                &&& final(h).brk == old(h).brk
                &&& if n1 <= old(h).end - c {
                    &&& r.1 == BumpAction::Done(c as usize)
                    &&& final(h).cur == c + n1
                    &&& final(h).mmap_step == old(h).mmap_step
                } else if c == 0 {
                    &&& r.1 is QueryBrk
                    &&& final(h).cur == 0
                    &&& final(h).mmap_step == old(h).mmap_step
                } else {
                    &&& r.1 == grow_action(hc, n1, req, auxv_top, stack_top)
                    &&& final(h).mmap_step == grow_step(hc, n1, req, auxv_top, stack_top)
                    &&& final(h).cur == c
                    &&& r.1 is MapPages ==> r.0.stage == (BumpStage::Mapping {
                        len: map_plan(n1, old(h).mmap_step, (old(h).end - c) as nat).0 as usize,
                        new_area: map_plan(n1, old(h).mmap_step, (old(h).end - c) as nat).1,
                    })
                }
            },
    {
        if n > usize::MAX / 2 {
            return (BumpJob { n, req: 0, auxv_top, stack_top, stage: BumpStage::Idle }, BumpAction::Fail);
        }
        let n1 = if n == 0 { 1 } else { n };
        let mut align: usize = 1;
        while align < n1 && align < ALIGN
            invariant
                align == 1 || align == 2 || align == 4 || align == 8 || align == 16,
                align <= 16,
                n1 >= 1,
                align == 1 || align < n1 * 2,
                align <= align_for(n1 as nat),
            decreases 16 - align,
        {
            align = align + align;
        }
        assert(align == align_for(n1 as nat));
        proof {
            lemma_align_within(h.cur as nat, align as nat, h.end as nat);
        }
        let c = align_cur(h.cur, align);
        h.cur = c;
        let mut job = BumpJob { n: n1, req: 0, auxv_top, stack_top, stage: BumpStage::Idle };
        if n1 <= h.end - c {
            let a = job.finish(h);
            return (job, a);
        }
        job.req = page_align(n1 - (h.end - c));
        if c == 0 {
            job.stage = BumpStage::QueryBrk;
            return (job, BumpAction::QueryBrk);
        }
        let a = job.grow(h);
        (job, a)
    }

    /// Carries on once the caller reports back. The break's place, rounded
    /// up to a page, starts an empty area there (a place of 0 starts none)
    /// and the break is to grow as `grow_action` says. A break that moved
    /// as asked extends the area, which hands out the block; one that did
    /// not leads to a mapping (see `map_plan`). A mapping that is to be a
    /// new area becomes the current one and hands out the block; any other
    /// is the block itself. A failed mapping, or an answer that does not
    /// fit what the request waits for, fails it.
    pub fn resume(&mut self, h: &mut BumpHeap, ev: BumpEvent) -> (a: BumpAction)
        requires
            old(self).inv(old(h)),
        ensures
            final(self).inv(final(h)),
            final(self).stage_of(a),
            old(self).stage matches BumpStage::SetBrk { to } ==> (ev == BumpEvent::Brk(to) ==> {
                &&& a == BumpAction::Done(old(h).cur)
                &&& final(h).end == to
                &&& final(h).brk == to
                &&& final(h).cur == old(h).cur + old(self).n
            }),
            old(self).stage matches BumpStage::Mapping { len, new_area } ==> match ev {
                BumpEvent::Mapped(m) => if m != 0 && m % 16 == 0 && m + len <= usize::MAX {
                    &&& a == BumpAction::Done(m)
                    &&& new_area ==> final(h).cur == m + old(self).n && final(h).end == m + len
                    &&& !new_area ==> final(h).cur == old(h).cur && final(h).end == old(h).end
                    &&& final(h).brk == old(h).brk && final(h).mmap_step == old(h).mmap_step
                } else {
                    a is Fail
                },
                _ => a is Fail,
            },
            old(self).stage is QueryBrk ==> match ev {
                BumpEvent::Brk(b) => {
                    let nb = ((vstd::wrapping::usize_specs::wrapping_add(b, 4095) / 4096) * 4096) as usize;
                    let h2 = BumpHeap { brk: nb, cur: nb, end: nb, mmap_step: old(h).mmap_step };
                    let plan = map_plan(old(self).n as nat, old(h).mmap_step, (old(h).end - old(h).cur) as nat);
                    if nb != 0 {
                        &&& a == grow_action(h2, old(self).n as nat, old(self).req as nat, old(self).auxv_top, old(self).stack_top)
                        &&& final(h).mmap_step == grow_step(h2, old(self).n as nat, old(self).req as nat, old(self).auxv_top, old(self).stack_top)
                        &&& final(h).brk == nb && final(h).cur == nb && final(h).end == nb
                        &&& a is MapPages ==> final(self).stage == (BumpStage::Mapping {
                            len: map_plan(old(self).n as nat, old(h).mmap_step, 0).0 as usize,
                            new_area: map_plan(old(self).n as nat, old(h).mmap_step, 0).1,
                        })
                    } else {
                        &&& a == BumpAction::MapPages { len: plan.0 as usize }
                        &&& final(self).stage == (BumpStage::Mapping { len: plan.0 as usize, new_area: plan.1 })
                        &&& final(h).mmap_step == plan.2
                        &&& final(h).brk == old(h).brk && final(h).cur == old(h).cur && final(h).end == old(h).end
                    }
                },
                _ => a is Fail,
            },
            old(self).stage matches BumpStage::SetBrk { to } ==> match ev {
                BumpEvent::Brk(b) => b != to ==> {
                    let plan = map_plan(old(self).n as nat, old(h).mmap_step, (old(h).end - old(h).cur) as nat);
                    &&& a == BumpAction::MapPages { len: plan.0 as usize }
                    &&& final(self).stage == (BumpStage::Mapping { len: plan.0 as usize, new_area: plan.1 })
                    &&& final(h).mmap_step == plan.2
                    &&& final(h).brk == old(h).brk && final(h).cur == old(h).cur && final(h).end == old(h).end
                },
                _ => a is Fail,
            },
            old(self).stage is Idle ==> a is Fail,
            ev is MapFailed ==> a is Fail,
    {
        let stage = self.stage;
        self.stage = BumpStage::Idle;
        match stage {
            BumpStage::QueryBrk => {
                if let BumpEvent::Brk(b) = ev {
                    let brk = b.wrapping_add(BUMP_PAGE - 1) & !(BUMP_PAGE - 1);
                    proof {
                        let t = vstd::wrapping::usize_specs::wrapping_add(b, 4095);
                        crate::bits::lemma_fields_usize(t);
                    }
                    if brk != 0 {
                        h.brk = brk;
                        h.cur = brk;
                        h.end = brk;
                        return self.grow(h);
                    }
                    return self.map_instead(h);
                }
                BumpAction::Fail
            },
            BumpStage::SetBrk { to } => {
                if let BumpEvent::Brk(b) = ev {
                    if b == to {
                        h.brk = to;
                        h.end = to;
                        return self.finish(h);
                    }
                    return self.map_instead(h);
                }
                BumpAction::Fail
            },
            BumpStage::Mapping { len, new_area } => {
                if let BumpEvent::Mapped(m) = ev {
                    if m != 0 && m % 16 == 0 && m <= usize::MAX - len {
                        if !new_area {
                            return BumpAction::Done(m);
                        }
                        h.cur = m;
                        h.end = m + len;
                        return self.finish(h);
                    }
                }
                BumpAction::Fail
            },
            BumpStage::Idle => BumpAction::Fail,
        }
    }
}

/// Blocks handed out one after another from the current area do not
/// overlap: after a block `[p1, p1 + n1)` the area starts at `p1 + n1`
/// (`start`, `resume`), its start only moves up while it stays the current
/// area (`cur`), and the next block of `n2` bytes starts at the area's
/// start aligned up (to `a`, a power of two of at most 16).
pub proof fn law_bump_blocks_disjoint(p1: nat, n1: nat, cur: nat, a: nat, n2: nat)
    requires
        a == 1 || a == 2 || a == 4 || a == 8 || a == 16,
        cur >= p1 + n1,
    ensures
        align_up(cur, a) >= p1 + n1,
        align_up(cur, a) + n2 <= p1 || p1 + n1 <= align_up(cur, a),
{
}


/// Law: a bump block of `n` bytes (at least 1) starts at the current
/// position rounded up to the least power of two that is at least `n`,
/// but at most 16: that alignment is one of 1, 2, 4, 8 and 16, holds `n`
/// unless it is 16, is less than twice `n`, and the block start is a
/// multiple of it within one alignment step of the current position; a
/// block of 16 bytes or more is 16-aligned.
pub proof fn law_bump_alignment(cur: nat, n: nat)
    requires
        n >= 1,
    ensures
        align_for(n) == 1 || align_for(n) == 2 || align_for(n) == 4 || align_for(n) == 8 || align_for(n) == 16,
        align_for(n) >= n || align_for(n) == 16,
        align_for(n) == 1 || align_for(n) < 2 * n,
        align_up(cur, align_for(n)) % align_for(n) == 0,
        cur <= align_up(cur, align_for(n)) < cur + align_for(n),
        n >= 16 ==> align_up(cur, align_for(n)) % 16 == 0,
{
    let a = align_for(n) as int;
    let c = cur as int;
    let r = c % a;
    let q = c / a;
    vstd::arithmetic::div_mod::lemma_fundamental_div_mod(c, a);
    if r != 0 {
        vstd::arithmetic::div_mod::lemma_mod_multiples_basic(q + 1, a);
        assert(c + (a - r) == (q + 1) * a) by (nonlinear_arith)
            requires c == a * q + r;
    }
    if n >= 16 {
        assert(a == 16);
    }
}

} // verus!
