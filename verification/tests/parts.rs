use lib::bump::{BumpHeap, BumpJob, BumpAction, BumpEvent, check_stack_collision, page_align};
use lib::calloc::{calloc_size, mal0_clear, calloc_clear, allzerop};
use lib::aligned::{aligned_request, AlignedAllocError, aligned_alloc_inner, convert_aligned_alloc_result,
    posix_memalign_check, reallocarray_size, disable_aligned_alloc, adjust_aligned, EINVAL, ENOMEM};
use lib::glue::{LockAcquire, LockStep, LockEvent, MallocLock, LOCK_HELD, is_mt, page_size, get_kernel_random_secret, get_random_secret,
    __malloc_replaced, RuslAlloc, wrlock, unlock};
use lib::meta::{Meta, UNIT};
use lib::heap::Heap;
use lib::slot::{enframe, get_nominal_size, get_slot_index, slot_offset, read_u16};
use lib::realloc::{realloc_in_group, realloc_start, ReallocPlan, ReallocStart, frame_remapped, malloc_usable_size, is_allzero};
use lib::free::group_base;
use lib::calloc as calloc_mod;
use lib::random::SpinLock;
use lib::bump::{bump_lock_acquire, bump_lock_release};

#[test]
fn bump_first_request_asks_for_the_break() {
    let mut h = BumpHeap::new();
    let (mut job, a) = BumpJob::start(&mut h, 10, 0, 0x7fff_0000_0000);
    assert!(matches!(a, BumpAction::QueryBrk));
    let a = job.resume(&mut h, BumpEvent::Brk(0x55_0000_1234));
    match a {
        BumpAction::SetBrk(to) => {
            assert_eq!(to, 0x55_0000_2000 + 4096);
            let d = job.resume(&mut h, BumpEvent::Brk(to));
            match d {
                BumpAction::Done(p) => assert_eq!(p, 0x55_0000_2000),
                _ => panic!("expected a block"),
            }
            assert_eq!(h.cur, 0x55_0000_2000 + 10);
            assert_eq!(h.end, to);
        }
        _ => panic!("expected the break to grow"),
    }
}

#[test]
fn bump_blocks_are_aligned_and_disjoint() {
    let mut h = BumpHeap::new();
    h.brk = 0x10_0000;
    h.cur = 0x10_0001;
    h.end = 0x10_1000;
    let (_j, a) = BumpJob::start(&mut h, 3, 0, 0);
    assert!(matches!(a, BumpAction::Done(0x10_0004)));
    let (_j, b) = BumpJob::start(&mut h, 20, 0, 0);
    assert!(matches!(b, BumpAction::Done(0x10_0010)));
    let (_j, c) = BumpJob::start(&mut h, 0, 0, 0);
    assert!(matches!(c, BumpAction::Done(0x10_0024)));
    assert_eq!(h.cur, 0x10_0025);
}

#[test]
fn bump_too_large_fails() {
    let mut h = BumpHeap::new();
    let (_j, a) = BumpJob::start(&mut h, usize::MAX / 2 + 1, 0, 0);
    assert!(matches!(a, BumpAction::Fail));
}

#[test]
fn bump_maps_when_the_break_fails() {
    let mut h = BumpHeap::new();
    h.brk = 0x10_0000;
    h.cur = 0x10_0000;
    h.end = 0x10_0000;
    let (mut job, a) = BumpJob::start(&mut h, 100, 0, 0);
    assert!(matches!(a, BumpAction::SetBrk(0x10_1000)));
    let m = job.resume(&mut h, BumpEvent::Brk(0x10_0000));
    match m {
        BumpAction::MapPages { len } => assert_eq!(len, 4096),
        _ => panic!("expected a mapping"),
    }
    assert_eq!(h.mmap_step, 0);
    let d = job.resume(&mut h, BumpEvent::Mapped(0x20_0000));
    assert!(matches!(d, BumpAction::Done(0x20_0000)));
    assert_eq!(h.cur, 0x20_0000 + 100);
    assert_eq!(h.end, 0x20_1000);
}

#[test]
fn bump_map_failure_fails() {
    let mut h = BumpHeap::new();
    h.brk = 1;
    h.cur = 0x10_0000;
    h.end = 0x10_0000;
    let (mut job, a) = BumpJob::start(&mut h, 100, 0, 0);
    assert!(matches!(a, BumpAction::MapPages { .. }));
    let f = job.resume(&mut h, BumpEvent::MapFailed);
    assert!(matches!(f, BumpAction::Fail));
}

#[test]
fn stack_collision_checks() {
    assert!(check_stack_collision(0x7f00_0000, 0x8000_0001, 0, 0x8000_0100));
    assert!(!check_stack_collision(0x1000, 0x2000, 0, 0x8000_0000));
    assert!(check_stack_collision(0x1000, 0x2000, 0x1800, 0x8000_0000));
    assert_eq!(page_align(1), 4096);
    assert_eq!(page_align(4096), 4096);
    assert_eq!(page_align(0), 0);
}

#[test]
fn bump_lock_round_trip() {
    let mut l = SpinLock { locked: false };
    bump_lock_acquire(&mut l);
    assert!(l.locked);
    bump_lock_release(&mut l);
    assert!(!l.locked);
}

#[test]
fn calloc_size_checks_overflow() {
    assert_eq!(calloc_size(3, 5), Some(15));
    assert_eq!(calloc_size(0, usize::MAX), Some(0));
    assert_eq!(calloc_size(usize::MAX, 0), Some(0));
    assert_eq!(calloc_size(usize::MAX / 2 + 1, 2), None);
    assert_eq!(reallocarray_size(usize::MAX, 2), None);
    assert_eq!(reallocarray_size(7, 8), Some(56));
    assert!(!allzerop(0x1000));
}

#[test]
fn mal0_clear_skips_zero_pages() {
    let mut mem = vec![7u8; 3 * 4096 + 100];
    for b in mem[4096 + 100..2 * 4096 + 100].iter_mut() {
        *b = 0;
    }
    let addr = 0x10_0000 - 100;
    let n = mem.len();
    let r = mal0_clear(&mut mem, addr, n);
    assert!(r < 4096);
    assert_eq!(r, 100);
    assert!(mem[r..].iter().all(|&b| b == 0));
    assert!(mem[..r].iter().all(|&b| b == 7));
}

#[test]
fn mal0_clear_small_is_left_to_the_caller() {
    let mut mem = vec![1u8; 100];
    assert_eq!(mal0_clear(&mut mem, 0x1000, 100), 100);
    assert!(mem.iter().all(|&b| b == 1));
    calloc_clear(&mut mem, 0x1000);
    assert!(mem.iter().all(|&b| b == 0));
}

#[test]
fn aligned_request_checks() {
    assert_eq!(aligned_request(3, 10, false, false), Err(AlignedAllocError::InvalidAlignment));
    assert_eq!(aligned_request(64, usize::MAX - 10, false, false), Err(AlignedAllocError::OutOfMemory));
    assert_eq!(aligned_request(1 << 35, 10, false, false), Err(AlignedAllocError::OutOfMemory));
    assert_eq!(aligned_request(64, 10, true, false), Err(AlignedAllocError::OutOfMemory));
    assert_eq!(aligned_request(64, 10, true, true), Ok(10 + 64 - 16));
    assert_eq!(aligned_request(8, 10, false, false), Ok(10));
    assert_eq!(aligned_request(0, 10, false, false), Err(AlignedAllocError::InvalidAlignment));
    assert!(disable_aligned_alloc(true, false));
    assert!(!disable_aligned_alloc(true, true));
}

#[test]
fn posix_memalign_results() {
    assert_eq!(posix_memalign_check(16, 0), Some(ENOMEM));
    assert_eq!(posix_memalign_check(4, 10), Some(EINVAL));
    assert_eq!(posix_memalign_check(16, 10), None);
    assert_eq!(aligned_alloc_inner(0x1000, 0), Ok(0x1000));
    assert_eq!(aligned_alloc_inner(0, EINVAL), Err(AlignedAllocError::InvalidAlignment));
    assert_eq!(aligned_alloc_inner(0, ENOMEM), Err(AlignedAllocError::OutOfMemory));
    assert_eq!(convert_aligned_alloc_result(Ok(0x2000)), (0, Some(0x2000)));
    assert_eq!(convert_aligned_alloc_result(Err(AlignedAllocError::InvalidAlignment)), (EINVAL, None));
    assert_eq!(convert_aligned_alloc_result(Err(AlignedAllocError::OutOfMemory)), (ENOMEM, None));
}

fn group_of_class(sc: usize, last: usize) -> Meta {
    let mut g = Meta::zero();
    g.mem = 0x10_0000;
    g.set_last_idx(last);
    g.set_sizeclass(sc);
    g.set_freeable(true);
    g
}

#[test]
fn realloc_in_place_and_moves() {
    // class 10: 12 units = 192 bytes per slot
    let g = group_of_class(10, 3);
    let mut mem = vec![0u8; 16 + 192 * 4];
    let p = enframe(&mut mem, &g, 1, 100, 0);
    assert_eq!(get_slot_index(&mem, p), 1);
    let end = 16 + 192 * 2 - 4;
    assert_eq!(get_nominal_size(&mem, p, end), 100);
    assert_eq!(malloc_usable_size(&g, &mem, p), 100);
    // shrinking within the class keeps the slot
    let r = realloc_in_group(&g, &mut mem, p, 150);
    assert!(matches!(r, ReallocPlan::Resized));
    assert_eq!(malloc_usable_size(&g, &mem, p), 150);
    // far too small a request for the class moves
    let r = realloc_in_group(&g, &mut mem, p, 10);
    match r {
        ReallocPlan::Move { copy } => assert_eq!(copy, 10),
        _ => panic!("expected a move"),
    }
    // too large a request moves with the old size copied
    let r = realloc_in_group(&g, &mut mem, p, 1000);
    match r {
        ReallocPlan::Move { copy } => assert_eq!(copy, 150),
        _ => panic!("expected a move"),
    }
    assert!(!is_allzero(&g));
}

#[test]
fn realloc_remaps_a_large_slot() {
    let mut g = group_of_class(63, 0);
    g.set_maplen(33);
    let mut mem = vec![0u8; 33 * 4096];
    let p = enframe(&mut mem, &g, 0, 131052, 0);
    let r = realloc_in_group(&g, &mut mem, p, 200_000);
    match r {
        ReallocPlan::Remap { needed, base, copy } => {
            assert_eq!(base, p - 16);
            assert_eq!(needed, (200_000 + base + 16 + 4 + 4095) & !4095);
            assert_eq!(copy, 131052);
            let mut big = vec![0u8; needed];
            let q = frame_remapped(&mut big, base, needed, 200_000);
            assert_eq!(q, 16 + base);
            assert_eq!(get_nominal_size(&big, q, needed - 4), 200_000);
        }
        _ => panic!("expected a remap"),
    }
    assert!(is_allzero(&g));
}

#[test]
fn adjust_aligned_moves_the_start() {
    let g = group_of_class(20, 1);
    // class 20: 72 units = 1152 bytes
    let mut mem = vec![0u8; 16 + 1152 * 2];
    let n = 100 + 256 - 16;
    let p = enframe(&mut mem, &g, 0, n, 0);
    let addr = 0x10_0000 + p;
    let q = adjust_aligned(&g, &mut mem, p, addr, 256, 100);
    assert_eq!((0x10_0000 + q) % 256, 0);
    assert!(q >= p && q < p + 256);
    let end = 16 + 1152 - 4;
    assert_eq!(get_nominal_size(&mem, q, end), 100);
    assert_eq!(get_slot_index(&mem, q), 0);
    if q != p {
        assert_eq!(slot_offset(&mem, q), (q - 16) / 16);
        assert_eq!(read_u16(&mem, 16 - 2) as usize, (q - 16) / 16);
        assert_eq!(mem[16 - 3], 0xe0);
    }
}

#[test]
fn lock_round_trip() {
    let mut l = MallocLock::new();
    assert_eq!(l.lock, 0);
    l.wrlock(true);
    assert_eq!(l.lock, LOCK_HELD);
    assert!(!l.unlock());
    assert_eq!(l.lock, 0);
    wrlock(&mut l, false);
    assert_eq!(l.lock, 0);
    assert!(!unlock(&mut l));
    l.lock = LOCK_HELD + 2;
    assert!(l.unlock());
    assert_eq!(l.lock, 2);
    l.lock = i32::MIN + 5;
    assert!(!l.atfork(1, true));
    assert_eq!(l.lock, 0);
    l.upgradelock();
}

#[test]
fn glue_values() {
    assert!(is_mt(-1));
    assert!(!is_mt(0));
    assert_eq!(page_size(), 4096);
    assert!(__malloc_replaced(1));
    assert!(!__malloc_replaced(0));
    let auxv = [6usize, 4096, 25, 0x7fff_1000, 0, 0];
    assert_eq!(get_kernel_random_secret(&auxv), Some(0x7fff_1008));
    let none = [6usize, 4096, 0, 0, 25, 1];
    assert_eq!(get_kernel_random_secret(&none), None);
    assert_eq!(get_random_secret(2, None), 2u64.wrapping_mul(1103515245));
    assert_eq!(get_random_secret(2, Some(99)), 99);
    let a = RuslAlloc;
    assert_eq!(a.alloc_size(0), 1);
    assert_eq!(a.alloc_size(5), 5);
    assert_eq!(a.realloc_size(0), 1);
}

#[test]
fn donate_makes_groups() {
    let mut h = Heap::new();
    let mut mem = vec![0xaau8; 20000];
    let base = 0x10_0008;
    let ids = h.donate(&mut mem, base);
    assert!(!ids.is_empty());
    let first = h.metas[ids[0]];
    assert_eq!(first.mem, 0x10_0010);
    assert_eq!(first.freed_mask, 1);
    assert_eq!(first.avail_mask, 0);
    assert!(!first.freeable());
    assert_eq!(h.active[first.sizeclass()], vec![ids[0]]);
    assert_eq!(mem[8 + 13], 255);
    assert_eq!(mem[8], (ids[0] + 1) as u8);
    let mut prev = 48;
    for &m in ids.iter() {
        let sc = h.metas[m].sizeclass();
        assert!(sc < prev);
        prev = sc;
    }
}

#[test]
fn bump_small_mapping_grows_the_step() {
    let mut h = BumpHeap::new();
    h.brk = 1;
    h.mmap_step = 2;
    h.cur = 0x10_0000;
    h.end = 0x10_0000;
    let (mut job, a) = BumpJob::start(&mut h, 100, 0, 0);
    match a {
        BumpAction::MapPages { len } => assert_eq!(len, 8192),
        _ => panic!("expected a mapping"),
    }
    assert_eq!(h.mmap_step, 3);
    let d = job.resume(&mut h, BumpEvent::Mapped(0x30_0000));
    assert!(matches!(d, BumpAction::Done(0x30_0000)));
    assert_eq!(h.end, 0x30_2000);
}

#[test]
fn lock_protocol_spins_then_waits() {
    let (mut a, s) = LockAcquire::start(true);
    assert!(matches!(s, LockStep::Cas { expect: 0, new: LOCK_HELD }));
    let mut s = a.resume(LockEvent::Found(LOCK_HELD));
    let mut spins = 0;
    while let LockStep::Cas { expect, new } = s {
        assert_eq!(expect, 0);
        assert_eq!(new, LOCK_HELD);
        spins += 1;
        s = a.resume(LockEvent::Found(LOCK_HELD));
    }
    assert_eq!(spins, 10);
    assert!(matches!(s, LockStep::AddWaiter));
    let s = a.resume(LockEvent::Added(LOCK_HELD));
    assert!(matches!(s, LockStep::Wait { val } if val == LOCK_HELD + 1));
    let s = a.resume(LockEvent::Woken);
    assert!(matches!(s, LockStep::Cas { expect: 1, new } if new == i32::MIN + 1));
    let s = a.resume(LockEvent::Stored);
    assert!(matches!(s, LockStep::Held));
}

#[test]
fn lock_protocol_without_threads_is_free() {
    let (mut a, s) = LockAcquire::start(false);
    assert!(matches!(s, LockStep::Held));
    assert!(matches!(a.resume(LockEvent::Stored), LockStep::Held));
    let (mut b, _) = LockAcquire::start(true);
    assert!(matches!(b.resume(LockEvent::Stored), LockStep::Held));
}

#[test]
fn lock_protocol_spin_takes_a_free_word() {
    let (mut a, _) = LockAcquire::start(true);
    // the word held by another thread with two waiters
    let s = a.resume(LockEvent::Found(LOCK_HELD + 2));
    assert!(matches!(s, LockStep::Cas { expect: 2, new } if new == i32::MIN + 3));
    // the word became free with one waiter left
    let s = a.resume(LockEvent::Found(1));
    assert!(matches!(s, LockStep::Cas { expect: 1, new } if new == i32::MIN + 2));
    assert!(matches!(a.resume(LockEvent::Stored), LockStep::Held));
}

#[test]
fn empty_interval_never_collides() {
    let sp = 0x8000_0000usize;
    assert!(!check_stack_collision(sp - 1, sp - 1, 0, sp));
    assert!(!check_stack_collision(sp - 1, sp - 1, sp, sp));
    assert!(!check_stack_collision(0x2000, 0x1000, 0x1800, sp));
}

#[test]
fn realloc_starts() {
    assert!(matches!(realloc_start(0, 10), ReallocStart::Allocate));
    assert!(matches!(realloc_start(0x1000, 0), ReallocStart::Release));
    assert!(matches!(realloc_start(0x1000, usize::MAX / 2), ReallocStart::TooLarge));
    assert!(matches!(realloc_start(0x1000, 10), ReallocStart::Resize));
}

#[test]
fn group_base_of_a_slot() {
    assert_eq!(group_base(0x1030, 2), Some(0x1000));
    assert_eq!(group_base(0x10, 1), None);
    assert_eq!(group_base(0x1000, usize::MAX), None);
}

#[test]
fn mal0_clear_leaves_small_blocks_alone() {
    let mut buf = vec![0xABu8; 256];
    let r = calloc_mod::mal0_clear(&mut buf, 0x10000, 256);
    assert_eq!(r, 256);
    assert!(buf.iter().all(|&b| b == 0xAB));
}

#[test]
fn bump_mapping_stage_matches_the_action() {
    let mut h = BumpHeap::new();
    let (mut job, a) = BumpJob::start(&mut h, 5000, 0, 0);
    assert!(matches!(a, BumpAction::QueryBrk));
    // the break cannot grow: a mapping is asked for, and its answer becomes the block
    let a2 = job.resume(&mut h, BumpEvent::Brk(0x10_0000));
    match a2 {
        BumpAction::SetBrk(_) => {
            let a3 = job.resume(&mut h, BumpEvent::Brk(0x10_0000));
            match a3 {
                BumpAction::MapPages { len } => {
                    let a4 = job.resume(&mut h, BumpEvent::Mapped(0x4000_0000));
                    assert!(matches!(a4, BumpAction::Done(0x4000_0000)));
                    assert!(len >= 5000);
                }
                _ => panic!("a mapping is asked for"),
            }
        }
        _ => panic!("the break is to grow first"),
    }
}

#[test]
fn bump_break_answers_lead_on() {
    // the answer to the break query starts an area at the break, rounded up
    let mut h = BumpHeap::new();
    let (mut job, a) = BumpJob::start(&mut h, 100, 0, 0);
    assert!(matches!(a, BumpAction::QueryBrk));
    let a2 = job.resume(&mut h, BumpEvent::Brk(0x10_0001));
    assert_eq!(h.brk, 0x10_1000);
    assert_eq!(h.cur, 0x10_1000);
    let to = match a2 {
        BumpAction::SetBrk(to) => to,
        _ => panic!("the break is to grow"),
    };
    assert_eq!(to, 0x10_2000);
    // a refused break falls back to a mapping
    let a3 = job.resume(&mut h, BumpEvent::Brk(0x10_1000));
    assert!(matches!(a3, BumpAction::MapPages { .. }));
    // a break query answered with 0 maps at once
    let mut h2 = BumpHeap::new();
    let (mut job2, _) = BumpJob::start(&mut h2, 100, 0, 0);
    let a4 = job2.resume(&mut h2, BumpEvent::Brk(0));
    assert!(matches!(a4, BumpAction::MapPages { .. }));
}

#[test]
fn framed_slot_checks() {
    let mut g = Meta::zero();
    g.set_sizeclass(1);
    g.set_last_idx(3);
    let mut mem = vec![0u8; 256];
    // slot 1 of a class-1 group (32-byte slots) starts at 16 + 32 = 48
    mem[48 - 3] = 1;
    assert!(lib::realloc::is_framed_slot(&g, &mem, 48));
    assert!(!lib::realloc::is_framed_slot(&g, &mem, 4));
    assert!(!lib::realloc::is_framed_slot(&g, &mem, 300));
}
