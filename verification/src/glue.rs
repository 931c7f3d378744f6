//! What the allocator needs from its surroundings, as plain values: the
//! lock word, whether locking is needed, the page size, the secret, and
//! the record of a thread-local storage module.

use vstd::prelude::*;

verus! {

/// The lock word's value while the lock is held and nobody waits.
pub const LOCK_HELD: i32 = i32::MIN + 1;

/// The allocator's lock word: 0 when free; negative while held, counting
/// waiters above `i32::MIN + 1`.
pub struct MallocLock {
    pub lock: i32,
}

impl MallocLock {
    /// A free lock.
    pub fn new() -> (l: MallocLock)
        ensures
            l.lock == 0,
    {
        MallocLock { lock: 0 }
    }

    /// Takes the lock (shared and exclusive taking are the same here) when
    /// the process needs locking (`mt`). With exclusive access the lock
    /// must be free, else the caller would wait forever.
    pub fn rdlock(&mut self, mt: bool)
        requires
            mt ==> old(self).lock == 0,
        ensures
            mt ==> final(self).lock == LOCK_HELD,
            !mt ==> final(self).lock == old(self).lock,
    {
        if !mt {
            return;
        }
        self.lock = LOCK_HELD;
    }

    /// Takes the lock for writing (see `rdlock`).
    pub fn wrlock(&mut self, mt: bool)
        requires
            mt ==> old(self).lock == 0,
        ensures
            mt ==> final(self).lock == LOCK_HELD,
            !mt ==> final(self).lock == old(self).lock,
    {
        self.rdlock(mt)
    }

    /// Releases the lock: a word that is not negative (not held) stays;
    /// else the holder's share `i32::MIN + 1` is taken off. Returns whether
    /// a waiter is to be woken: whether any waited.
    pub fn unlock(&mut self) -> (wake: bool)
        ensures
            old(self).lock >= 0 ==> final(self).lock == old(self).lock && !wake,
            old(self).lock < 0 ==> final(self).lock == old(self).lock - LOCK_HELD
                && wake == (old(self).lock != LOCK_HELD),
    {
        let val = self.lock;
        if val >= 0 {
            return false;
        }
        self.lock = val - LOCK_HELD;
        val != LOCK_HELD
    }

    /// Upgrading a shared hold to an exclusive one: nothing to do, since
    /// shared holds are exclusive.
    pub fn upgradelock(&self) {
    }

    /// Forgets any hold on the lock (in a child after `fork`).
    pub fn resetlock(&mut self)
        ensures
            final(self).lock == 0,
    {
        self.lock = 0;
    }

    /// The lock around `fork`: before it (`who < 0`) it is taken; in the
    /// child (`who > 0`) it is reset; in the parent (`who == 0`) it is
    /// released. Returns whether a waiter is to be woken.
    pub fn atfork(&mut self, who: i32, mt: bool) -> (wake: bool)
        requires
            who < 0 && mt ==> old(self).lock == 0,
        ensures
            who < 0 ==> !wake && (mt ==> final(self).lock == LOCK_HELD) && (!mt ==> final(self).lock == old(self).lock),
            who > 0 ==> !wake && final(self).lock == 0,
            who == 0 && old(self).lock >= 0 ==> final(self).lock == old(self).lock && !wake,
            who == 0 && old(self).lock < 0 ==> final(self).lock == old(self).lock - LOCK_HELD
                && wake == (old(self).lock != LOCK_HELD),
    {
        if who < 0 {
            self.rdlock(mt);
            false
        } else if who > 0 {
            self.resetlock();
            false
        } else {
            self.unlock()
        }
    }
}

/// What a thread taking the lock word shared with other threads does
/// next.
#[derive(Clone, Copy)]
pub enum LockStep {
    /// The lock is held.
    Held,
    /// Compare the word with `expect` and, if equal, store `new`; report
    /// the outcome.
    Cas { expect: i32, new: i32 },
    /// Add one waiter to the word; report the value it had.
    AddWaiter,
    /// Sleep while the word holds `val`; report waking.
    Wait { val: i32 },
}

/// What the thread reports back.
#[derive(Clone, Copy)]
pub enum LockEvent {
    /// The compare-and-store succeeded.
    Stored,
    /// The compare-and-store failed: the word held this.
    Found(i32),
    /// Adding the waiter found the word holding this.
    Added(i32),
    /// The thread woke up.
    Woken,
}

/// Where a lock acquisition stands: the first attempt, the `k`th of the
/// ten spinning attempts, or waiting as a counted waiter, with the word's
/// last known value.
#[derive(Clone, Copy)]
pub enum LockStage {
    First,
    Spin { k: u8, current: i32 },
    Counted { current: i32 },
    Sleeping { current: i32 },
    Done,
}

/// The word a spinning attempt expects, given the value `current` last
/// seen: a held word counts its waiters above `i32::MIN + 1`, so the
/// holder's share is taken off.
pub open spec fn unheld(current: i32) -> i32 {
    if current < 0 { vstd::wrapping::i32_specs::wrapping_sub(current, LOCK_HELD) } else { current }
}

/// A spinning attempt from the value `v` last seen: expect the word
/// without the holder's share, and store it with the share added.
pub open spec fn spin_cas(v: i32) -> LockStep {
    LockStep::Cas {
        expect: unheld(v),
        new: vstd::wrapping::i32_specs::wrapping_add(i32::MIN, vstd::wrapping::i32_specs::wrapping_add(unheld(v), 1)),
    }
}

/// The step of a counted waiter from the value `v` last seen: sleep while
/// the word is held, else take it by adding the holder's share.
pub open spec fn counted_step(v: i32) -> LockStep {
    if v < 0 {
        LockStep::Wait { val: v }
    } else {
        LockStep::Cas { expect: v, new: vstd::wrapping::i32_specs::wrapping_add(i32::MIN, v) }
    }
}

/// The acquisition of the shared lock word, one atomic step at a time.
pub struct LockAcquire {
    pub stage: LockStage,
}

impl LockAcquire {
    /// Starts taking the lock: nothing to do when the process needs no
    /// locking; else try to store `i32::MIN + 1` into a free word.
    pub fn start(mt: bool) -> (r: (LockAcquire, LockStep))
        ensures
            !mt ==> r.1 is Held && r.0.stage is Done,
            mt ==> r.1 == (LockStep::Cas { expect: 0, new: LOCK_HELD }) && r.0.stage is First,
    {
        if !mt {
            return (LockAcquire { stage: LockStage::Done }, LockStep::Held);
        }
        (LockAcquire { stage: LockStage::First }, LockStep::Cas { expect: 0, new: LOCK_HELD })
    }

    /// Spinning attempt `k` from the value `v` last seen (see `spin_cas`).
    fn spin(&mut self, k: u8, v: i32) -> (s: LockStep)
        ensures
            s == spin_cas(v),
            final(self).stage == (LockStage::Spin { k, current: unheld(v) }),
    {
        let c = if v < 0 { v.wrapping_sub(LOCK_HELD) } else { v };
        self.stage = LockStage::Spin { k, current: c };
        LockStep::Cas { expect: c, new: i32::MIN.wrapping_add(c.wrapping_add(1)) }
    }

    /// The step of a counted waiter from the value `v` last seen (see
    /// `counted_step`).
    fn counted(&mut self, v: i32) -> (s: LockStep)
        ensures
            s == counted_step(v),
            v < 0 ==> final(self).stage == (LockStage::Sleeping { current: v }),
            v >= 0 ==> final(self).stage == (LockStage::Counted { current: v }),
    {
        if v < 0 {
            self.stage = LockStage::Sleeping { current: v };
            return LockStep::Wait { val: v };
        }
        self.stage = LockStage::Counted { current: v };
        LockStep::Cas { expect: v, new: i32::MIN.wrapping_add(v) }
    }

    /// Carries on from what the thread reports. A successful store holds
    /// the lock. A failed first attempt or spinning attempt spins again
    /// from the value found (see `spin_cas`), ten attempts in all; then the
    /// thread counts itself as a waiter, the word it finds plus one being
    /// its value, and goes on as `counted_step` says; waking, it tries to
    /// take the word as it was without the holder's share. A report that
    /// does not fit the stage repeats the step.
    pub fn resume(&mut self, ev: LockEvent) -> (s: LockStep)
        ensures
            ev is Stored && (old(self).stage is First || old(self).stage is Spin || old(self).stage is Counted) ==>
                s is Held && final(self).stage is Done,
            match (old(self).stage, ev) {
                (LockStage::First, LockEvent::Found(v)) => s == spin_cas(v),
                (LockStage::Spin { k, .. }, LockEvent::Found(v)) => if k < 9 { s == spin_cas(v) } else { s is AddWaiter },
                (LockStage::Spin { k, .. }, LockEvent::Added(v)) => k >= 9 ==>
                    s == counted_step(vstd::wrapping::i32_specs::wrapping_add(v, 1)),
                (LockStage::Counted { .. }, LockEvent::Found(v)) => s == counted_step(v),
                (LockStage::Sleeping { current }, LockEvent::Woken) => {
                    let c = vstd::wrapping::i32_specs::wrapping_sub(current, LOCK_HELD);
                    s == (LockStep::Cas { expect: c, new: vstd::wrapping::i32_specs::wrapping_add(i32::MIN, c) })
                },
                _ => true,
            },
    {
        match self.stage {
            LockStage::First => match ev {
                LockEvent::Stored => {
                    self.stage = LockStage::Done;
                    LockStep::Held
                },
                LockEvent::Found(v) => self.spin(0, v),
                _ => LockStep::Cas { expect: 0, new: LOCK_HELD },
            },
            LockStage::Spin { k, current } => match ev {
                LockEvent::Stored => {
                    self.stage = LockStage::Done;
                    LockStep::Held
                },
                LockEvent::Found(v) => {
                    if k < 9 {
                        self.spin(k + 1, v)
                    } else {
                        self.stage = LockStage::Spin { k: 9, current: v };
                        LockStep::AddWaiter
                    }
                },
                LockEvent::Added(v) => {
                    if k >= 9 {
                        self.counted(v.wrapping_add(1))
                    } else {
                        LockStep::Cas { expect: current, new: i32::MIN.wrapping_add(current.wrapping_add(1)) }
                    }
                },
                LockEvent::Woken => LockStep::AddWaiter,
            },
            LockStage::Counted { current } => match ev {
                LockEvent::Stored => {
                    self.stage = LockStage::Done;
                    LockStep::Held
                },
                LockEvent::Found(v) => self.counted(v),
                _ => LockStep::Cas { expect: current, new: i32::MIN.wrapping_add(current) },
            },
            LockStage::Sleeping { current } => match ev {
                LockEvent::Woken => {
                    let c = current.wrapping_sub(LOCK_HELD);
                    self.stage = LockStage::Counted { current: c };
                    LockStep::Cas { expect: c, new: i32::MIN.wrapping_add(c) }
                },
                _ => LockStep::Wait { val: current },
            },
            LockStage::Done => LockStep::Held,
        }
    }
}

/// Takes the allocator's lock (see `MallocLock::wrlock`).
pub fn wrlock(l: &mut MallocLock, mt: bool)
    requires
        mt ==> old(l).lock == 0,
    ensures
        mt ==> final(l).lock == LOCK_HELD,
        !mt ==> final(l).lock == old(l).lock,
{
    l.wrlock(mt)
}

/// Releases the allocator's lock (see `MallocLock::unlock`).
pub fn unlock(l: &mut MallocLock) -> (wake: bool)
    ensures
        old(l).lock >= 0 ==> final(l).lock == old(l).lock && !wake,
        old(l).lock < 0 ==> final(l).lock == old(l).lock - LOCK_HELD && wake == (old(l).lock != LOCK_HELD),
{
    l.unlock()
}

/// Whether the process needs locking, given the C library's `need_locks`.
pub fn is_mt(need_locks: i8) -> (r: bool)
    ensures
        r == (need_locks != 0),
{
    need_locks != 0
}

/// Whether the process runs several threads (see `is_mt`).
pub fn is_multi_threaded(need_locks: i8) -> (r: bool)
    ensures
        r == (need_locks != 0),
{
    is_mt(need_locks)
}

/// The page size the allocator works with.
pub fn page_size() -> (r: usize)
    ensures
        r == 4096,
{
    4096
}

/// Whether the program replaced `malloc`, given the flag it sets.
pub fn __malloc_replaced(flag: i32) -> (r: bool)
    ensures
        r == (flag != 0),
{
    flag != 0
}

/// The auxiliary vector's entry kind for the kernel's random bytes.
pub const AT_RANDOM: usize = 25;

/// The value of the first entry of kind `key` in the auxiliary vector
/// `v` from pair `i` on, before its end (an entry of kind 0) or the end
/// of `v`.
pub open spec fn auxv_lookup(v: Seq<usize>, i: int, key: usize) -> Option<usize>
    decreases v.len() - i,
{
    if i < 0 || i >= v.len() || v[i] == 0 {
        None
    } else if v[i] == key && i + 1 < v.len() {
        Some(v[i + 1])
    } else if v[i] == key || i + 2 >= v.len() {
        None
    } else {
        auxv_lookup(v, i + 2, key)
    }
}

/// Where the kernel's random bytes for the secret lie: 8 bytes into the
/// block that the auxiliary vector's `AT_RANDOM` entry points to; `None`
/// when it has none.
pub fn get_kernel_random_secret(auxv: &[usize]) -> (r: Option<usize>)
    ensures
        r == (match auxv_lookup(auxv@, 0, AT_RANDOM) {
            Some(p) => Some(vstd::wrapping::usize_specs::wrapping_add(p, 8)),
            None => None::<usize>,
        }),
{
    let mut i: usize = 0;
    while i < auxv.len()
        invariant
            auxv_lookup(auxv@, 0, AT_RANDOM) == auxv_lookup(auxv@, i as int, AT_RANDOM),
        decreases auxv.len() - i,
    {
        let t = auxv[i];
        if t == 0 {
            return None;
        }
        if t == AT_RANDOM {
            if i + 1 < auxv.len() {
                return Some(auxv[i + 1].wrapping_add(8));
            }
            return None;
        }
        if auxv.len() - i <= 2 {
            return None;
        }
        i = i + 2;
    }
    None
}

/// The allocator's secret: the kernel's random word when there is one,
/// else the address of a stack variable spread by the multiplier of the
/// classic congruential generator.
pub fn get_random_secret(stack_addr: u64, kernel: Option<u64>) -> (r: u64)
    ensures
        r == (match kernel {
            Some(k) => k,
            None => vstd::wrapping::u64_specs::wrapping_mul(stack_addr, 1103515245),
        }),
{
    let secret = stack_addr.wrapping_mul(1103515245);
    match kernel {
        Some(k) => k,
        None => secret,
    }
}

/// A module's thread-local storage: the next module, its initialisation
/// image and length, and the size, alignment and offset of its block.
pub struct tls_module {
    pub next: usize,
    pub image: usize,
    pub len: usize,
    pub size: usize,
    pub align: usize,
    pub offset: usize,
}

/// The global allocator of programs built on this library.
pub struct RuslAlloc;

impl RuslAlloc {
    /// The size to allocate for a request of `size` bytes: at least 1.
    pub fn alloc_size(&self, size: usize) -> (r: usize)
        ensures
            r == (if size == 0 { 1 } else { size }),
    {
        if size == 0 { 1 } else { size }
    }

    /// The size to reallocate to for a request of `new_size` bytes: at
    /// least 1.
    pub fn realloc_size(&self, new_size: usize) -> (r: usize)
        ensures
            r == (if new_size == 0 { 1 } else { new_size }),
    {
        if new_size == 0 { 1 } else { new_size }
    }
}

/// Taking a free lock and releasing it leaves it free, with nobody to
/// wake.
pub proof fn law_unlock_after_lock(word: i32)
    requires
        word == LOCK_HELD,
    ensures
        word < 0,
        word - LOCK_HELD == 0,
        !(word != LOCK_HELD),
{
}

} // verus!
