use lib::meta::{size_to_class, size_class, size_overflows, Meta, MMAP_THRESHOLD, UNIT, IB, pgsz};
use lib::heap::{Heap, expand_count};
use lib::malloc::{MallocJob, MallocAction, MallocEvent, mark_carved};
use lib::slot::{enframe, get_slot_index, slot_offset, get_nominal_size};
use lib::free::{FreeAction, release_header};
use lib::realloc::{realloc_in_group, ReallocPlan, frame_remapped};

const BASE: usize = 0x100_0000;

struct Sim {
    arena: Vec<u8>,
    next: usize,
}

impl Sim {
    fn new() -> Sim {
        Sim { arena: vec![0u8; 1 << 24], next: BASE }
    }
    fn map(&mut self, len: usize) -> usize {
        let a = self.next;
        self.next += (len + 4095) & !4095;
        assert!(self.next - BASE <= self.arena.len());
        a
    }
    fn mem(&mut self, addr: usize) -> &mut [u8] {
        &mut self.arena[addr - BASE..]
    }
}

/// Runs a request to completion; returns (meta, idx, address of the slot).
fn run_malloc(heap: &mut Heap, sim: &mut Sim, n: usize) -> Option<(usize, usize, usize)> {
    let (mut job, mut a) = MallocJob::start(heap, n);
    loop {
        match a {
            MallocAction::Done(g) => {
                let m = heap.metas[g.meta];
                let p = enframe(sim.mem(m.mem), &m, g.idx, n, g.ctr);
                return Some((g.meta, g.idx, m.mem + p));
            }
            MallocAction::Fail => return None,
            MallocAction::MapPages { len } => {
                let addr = sim.map(len);
                a = job.resume(heap, MallocEvent::Mapped(addr));
            }
            MallocAction::Carve { meta, idx, n: cn, ctr, cnt, size } => {
                let m = heap.metas[meta];
                let mem = sim.mem(m.mem);
                let p = enframe(mem, &m, idx, cn, ctr);
                mark_carved(mem, p, cnt, size);
                a = job.resume(heap, MallocEvent::Carved(m.mem + p));
            }
        }
    }
}

#[test]
fn test_unit_value() {
    assert_eq!(UNIT, 16);
    assert_eq!(IB, 4);
    assert_eq!(MMAP_THRESHOLD, 131052);
    assert_eq!(pgsz(), 4096);
}

#[test]
fn test_size_classes_values() {
    let expected: [u16; 8] = [1, 2, 3, 4, 5, 6, 7, 8];
    for i in 0..8 {
        assert_eq!(size_class(i), expected[i]);
    }
    let second: [u16; 4] = [9, 10, 12, 15];
    for i in 0..4 {
        assert_eq!(size_class(8 + i), second[i]);
    }
    let last: [u16; 4] = [4680, 5460, 6552, 8191];
    for i in 0..4 {
        assert_eq!(size_class(44 + i), last[i]);
    }
    for i in 1..48 {
        assert!(size_class(i) > size_class(i - 1));
    }
    assert_eq!(UNIT * size_class(47) as usize - IB, MMAP_THRESHOLD);
}

#[test]
fn size_to_class_is_the_least_class() {
    assert_eq!(size_to_class(0), 0);
    assert_eq!(size_to_class(12), 0);
    assert_eq!(size_to_class(13), 1);
    assert_eq!(size_to_class(16), 1);
    assert_eq!(size_to_class(MMAP_THRESHOLD - 1), 47);
    for n in 0..MMAP_THRESHOLD {
        let c = size_to_class(n);
        assert!(UNIT * size_class(c) as usize >= n + IB);
        if c > 0 {
            assert!(UNIT * (size_class(c - 1) as usize) < n + IB);
        }
    }
}

#[test]
fn size_overflow_boundary() {
    assert!(!size_overflows(usize::MAX / 2 - 4097));
    assert!(size_overflows(usize::MAX / 2 - 4096));
    assert!(size_overflows(usize::MAX));
}

#[test]
fn meta_fields_round_trip() {
    let mut g = Meta::zero();
    g.set_last_idx(17);
    g.set_freeable(true);
    g.set_sizeclass(42);
    g.set_maplen(1234);
    assert_eq!(g.last_idx(), 17);
    assert!(g.freeable());
    assert_eq!(g.sizeclass(), 42);
    assert_eq!(g.maplen(), 1234);
    g.set_sizeclass(3);
    assert_eq!(g.last_idx(), 17);
    assert_eq!(g.maplen(), 1234);
}

#[test]
fn malloc_overflow_fails() {
    let mut heap = Heap::new();
    let (_job, a) = MallocJob::start(&mut heap, usize::MAX / 2);
    assert!(matches!(a, MallocAction::Fail));
}

#[test]
fn malloc_large_maps_request_plus_header() {
    let mut heap = Heap::new();
    let (mut job, a) = MallocJob::start(&mut heap, MMAP_THRESHOLD);
    match a {
        MallocAction::MapPages { len } => assert_eq!(len, MMAP_THRESHOLD + IB + UNIT),
        _ => panic!("expected a mapping"),
    }
    let done = job.resume(&mut heap, MallocEvent::Mapped(0x4000_0000));
    match done {
        MallocAction::Done(g) => {
            assert_eq!(g.idx, 0);
            let m = heap.metas[g.meta];
            assert_eq!(m.mem, 0x4000_0000);
            assert_eq!(m.sizeclass(), 63);
            assert_eq!(m.maplen(), (MMAP_THRESHOLD + IB + UNIT + 4095) / 4096);
            assert_eq!(g.ctr, 1);
        }
        _ => panic!("expected the slot"),
    }
}

#[test]
fn malloc_large_map_failure_fails() {
    let mut heap = Heap::new();
    let (mut job, _a) = MallocJob::start(&mut heap, 1 << 20);
    let r = job.resume(&mut heap, MallocEvent::MapFailed);
    assert!(matches!(r, MallocAction::Fail));
    assert_eq!(heap.metas.len(), 0);
}

#[test]
fn malloc_small_runs_to_a_slot() {
    let mut heap = Heap::new();
    let mut sim = Sim::new();
    let (m, idx, p) = run_malloc(&mut heap, &mut sim, 16).expect("a slot");
    assert_eq!(p % 16, 0);
    assert_eq!(heap.metas[m].sizeclass(), 1);
    assert_eq!(idx, 0);
    // the header of the slot names its index and size
    let g = heap.metas[m];
    let mem = sim.mem(g.mem);
    let off = p - g.mem;
    assert_eq!(get_slot_index(mem, off), 0);
    let stride = UNIT * size_class(1) as usize;
    let end = UNIT + stride * idx + stride - IB;
    assert_eq!(get_nominal_size(mem, off, end), 16);
    assert_eq!(slot_offset(mem, off), (off - UNIT) / UNIT);
}

#[test]
fn malloc_many_sizes() {
    let mut heap = Heap::new();
    let mut sim = Sim::new();
    let sizes = [1, 2, 4, 7, 8, 15, 16, 31, 32, 64, 127, 128, 255, 256, 511, 512,
        1023, 1024, 2047, 2048, 4095, 4096, 8191, 8192, 16383, 16384, 65535, 65536];
    let mut seen = Vec::new();
    for &n in sizes.iter() {
        let (m, idx, p) = run_malloc(&mut heap, &mut sim, n).expect("a slot");
        assert_eq!(p % 16, 0);
        assert!(heap.metas[m].sizeclass() >= size_to_class(n));
        assert!(!seen.contains(&(m, idx)));
        seen.push((m, idx));
    }
}

#[test]
fn malloc_then_free_returns_the_slot() {
    let mut heap = Heap::new();
    let mut sim = Sim::new();
    let (m, idx, p) = run_malloc(&mut heap, &mut sim, 100).expect("a slot");
    let base = heap.metas[m].mem;
    release_header(sim.mem(base), p - base);
    assert_eq!(sim.mem(base)[p - base - 3], 255);
    if !heap.free_fast(m, idx) {
        let _ = heap.nontrivial_free(m, idx);
    }
    assert!(heap.free_metas.contains(&m) || heap.metas[m].freed_mask & (1u32 << idx) != 0);
}

#[test]
fn malloc_small_moves_up_to_a_lightly_used_odd_class() {
    // 70 bytes need 5 units: class 4, even, unused, so class 5 serves it.
    let mut heap = Heap::new();
    assert_eq!(size_to_class(70), 4);
    let (sc, _step) = heap.malloc_small(70);
    assert_eq!(sc, 5);
    // 60 bytes need 4 units: class 3, odd, stays.
    let mut heap2 = Heap::new();
    let (sc2, _step2) = heap2.malloc_small(60);
    assert_eq!(sc2, 3);
    // class 6 never moves up
    let n6 = UNIT * size_class(6) as usize - IB;
    assert_eq!(size_to_class(n6), 6);
    let mut heap3 = Heap::new();
    let (sc3, _step3) = heap3.malloc_small(n6);
    assert_eq!(sc3, 6);
}

#[test]
fn every_granted_slot_holds_its_request() {
    let mut heap = Heap::new();
    let mut sim = Sim::new();
    for &n in [1usize, 12, 13, 28, 29, 100, 1000, 3000, 5000, 20000, 131051, 131052, 200000].iter() {
        let (job, a) = MallocJob::start(&mut heap, n);
        let mut job = job;
        let mut a = a;
        loop {
            match a {
                MallocAction::Done(g) => {
                    let m = heap.metas[g.meta];
                    let stride = lib::meta::get_stride(&m);
                    assert!(stride >= IB + n);
                    let p = enframe(sim.mem(m.mem), &m, g.idx, n, g.ctr);
                    assert_eq!(p % 16, 0);
                    break;
                }
                MallocAction::Fail => panic!("request of {} failed", n),
                MallocAction::MapPages { len } => {
                    let addr = sim.map(len);
                    a = job.resume(&mut heap, MallocEvent::Mapped(addr));
                }
                MallocAction::Carve { meta, idx, n: cn, ctr, cnt, size } => {
                    let m = heap.metas[meta];
                    assert!(lib::meta::get_stride(&m) >= IB + cn);
                    let mem = sim.mem(m.mem);
                    let p = enframe(mem, &m, idx, cn, ctr);
                    mark_carved(mem, p, cnt, size);
                    a = job.resume(&mut heap, MallocEvent::Carved(m.mem + p));
                }
            }
        }
    }
}

#[test]
fn expand_count_stops_at_the_page_end() {
    // slots of 16 bytes: all 32 fit on the first page
    assert_eq!(expand_count(0, 32, 16), 32);
    // slots of 1024 bytes: slot 2 ends at 3087, slot 3 crosses into the next page
    assert_eq!(expand_count(0, 32, 1024), 3);
    // never more than the group has
    assert_eq!(expand_count(0, 2, 1024), 2);
    assert_eq!(expand_count(5, 4, 16), 4);
}

#[test]
fn try_avail_hands_out_the_lowest_available_slot() {
    let mut heap = Heap::new();
    let mut sim = Sim::new();
    // the first request of 16 bytes installs a group of class 1 and takes slot 0
    let (m, idx, _p) = run_malloc(&mut heap, &mut sim, 16).expect("a slot");
    assert_eq!(idx, 0);
    let avail = heap.metas[m].avail_mask;
    assert!(avail != 0);
    let first = heap.try_avail(1);
    assert_eq!(first, avail & avail.wrapping_neg());
    assert_eq!(heap.metas[m].avail_mask, avail - first);
    // an empty ring has nothing
    assert_eq!(heap.try_avail(20), 0);
}

#[test]
fn failed_mapping_gives_back_every_planned_record() {
    let mut heap = Heap::new();
    let (mut job, a) = MallocJob::start(&mut heap, 16);
    assert!(matches!(a, MallocAction::MapPages { .. }));
    let planned = job.pending.len();
    assert!(planned >= 2);
    let r = job.resume(&mut heap, MallocEvent::MapFailed);
    assert!(matches!(r, MallocAction::Fail));
    assert_eq!(job.pending.len(), 0);
    assert_eq!(heap.free_metas.len(), planned);
    for &m in heap.free_metas.iter() {
        assert!(heap.metas[m].mem == 0);
    }
}

#[test]
fn get_meta_refuses_a_slot_not_in_use() {
    let mut heap = Heap::new();
    let mut sim = Sim::new();
    let (m, idx, _p) = run_malloc(&mut heap, &mut sim, 100).expect("a slot");
    let base = heap.metas[m].mem;
    assert_eq!(heap.get_meta(base, m as u64 + 1, idx), Some(m));
    // a slot that is still available is not in use
    let free_idx = heap.metas[m].avail_mask.trailing_zeros() as usize;
    if heap.metas[m].avail_mask != 0 {
        assert_eq!(heap.get_meta(base, m as u64 + 1, free_idx), None);
    }
    // beyond the group's last slot
    assert_eq!(heap.get_meta(base, m as u64 + 1, 40), None);
    // wrong memory, or no such record
    assert_eq!(heap.get_meta(base + 16, m as u64 + 1, idx), None);
    assert_eq!(heap.get_meta(base, 0, idx), None);
}
