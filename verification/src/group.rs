//! How many slots a new group of a size class gets, and whether it gets a
//! mapping of its own or is carved out of a slot of a larger class.

use vstd::prelude::*;
use crate::meta::{class_units, size_class, UNIT, IB, PAGESIZE};

verus! {

/// Slot counts for the small classes 0..9, by how much the class is used.
pub open spec fn small_cnt_tab(sc: int, i: int) -> nat {
    seq![
        seq![30nat, 30, 30], seq![31nat, 15, 15], seq![20nat, 10, 10],
        seq![31nat, 15, 7], seq![25nat, 12, 6], seq![21nat, 10, 5],
        seq![18nat, 8, 4], seq![31nat, 15, 7], seq![28nat, 14, 6],
    ][sc][i]
}

/// Starting slot counts for the medium classes, by class modulo 4.
pub open spec fn med_cnt_tab(k: int) -> nat {
    seq![28nat, 24, 20, 32][k]
}

/// Reads the small-class slot count table.
fn small_cnt(sc: usize, i: usize) -> (r: usize)
    requires
        sc < 9,
        i < 3,
    ensures
        r == small_cnt_tab(sc as int, i as int),
{
    let t: [[u8; 3]; 9] = [
        [30, 30, 30], [31, 15, 15], [20, 10, 10],
        [31, 15, 7], [25, 12, 6], [21, 10, 5],
        [18, 8, 4], [31, 15, 7], [28, 14, 6],
    ];
    let row = t[sc];
    proof {
        assert(t@[sc as int]@ == seq![
            seq![30u8, 30, 30], seq![31u8, 15, 15], seq![20u8, 10, 10],
            seq![31u8, 15, 7], seq![25u8, 12, 6], seq![21u8, 10, 5],
            seq![18u8, 8, 4], seq![31u8, 15, 7], seq![28u8, 14, 6],
        ][sc as int]);
    }
    row[i] as usize
}

/// Reads the medium-class starting count table.
fn med_cnt(k: usize) -> (r: usize)
    requires
        k < 4,
    ensures
        r == med_cnt_tab(k as int),
{
    let t: [u8; 4] = [28, 24, 20, 32];
    t[k] as usize
}

/// The small-class count: the first of the three table entries whose
/// fourfold is at most the class usage, else the last.
pub open spec fn small_pick(sc: int, usage: nat) -> nat {
    if 4 * small_cnt_tab(sc, 0) > usage {
        if 4 * small_cnt_tab(sc, 1) > usage {
            small_cnt_tab(sc, 2)
        } else {
            small_cnt_tab(sc, 1)
        }
    } else {
        small_cnt_tab(sc, 0)
    }
}

/// Halves an even count while its fourfold exceeds the class usage.
pub open spec fn halve_for_usage(cnt: nat, usage: nat) -> nat
    decreases cnt,
{
    if cnt > 0 && cnt % 2 == 0 && 4 * cnt > usage {
        halve_for_usage(cnt / 2, usage)
    } else {
        cnt
    }
}

/// Halves a count while the group would reach 65536 units.
pub open spec fn halve_for_size(cnt: nat, size: nat) -> nat
    decreases cnt,
{
    if cnt > 0 && size * cnt >= 65536 * UNIT {
        halve_for_size(cnt / 2, size)
    } else {
        cnt
    }
}

/// The slot count a new group of class `sc` starts from, given the class
/// usage: from the small table for classes below 9, else the medium start
/// halved for usage and size; a lone slot small enough for half a page
/// becomes two.
pub open spec fn base_count(sc: int, usage: nat) -> nat {
    let size = UNIT * class_units(sc);
    let c = if sc < 9 {
        small_pick(sc, usage)
    } else {
        halve_for_size(halve_for_usage(med_cnt_tab(sc % 4), usage), size as nat)
    };
    if c == 1 && size * c + UNIT <= PAGESIZE / 2 { 2 } else { c }
}

/// Halving a count of at most 32 slots keeps at least one.
pub(crate) proof fn lemma_halvings_positive(cnt: nat, usage: nat, size: nat)
    requires
        cnt >= 1,
        1 <= size <= 131056,
        cnt <= 32,
    ensures
        1 <= halve_for_usage(cnt, usage) <= cnt,
        1 <= halve_for_size(cnt, size) <= cnt,
    decreases cnt,
{
    if cnt > 1 {
        lemma_halvings_positive(cnt / 2, usage, size);
    } else {
        assert(cnt == 1);
        assert(size * cnt < 65536 * UNIT);
    }
}

/// The slot count a new group of class `sc` starts from.
pub fn group_base_count(sc: usize, usage: usize) -> (cnt: usize)
    requires
        sc < 48,
    ensures
        cnt == base_count(sc as int, usage as nat),
        1 <= cnt <= 32,
{
    proof {
        crate::meta::lemma_class_units_bounds(sc as int);
    }
    let size = UNIT * size_class(sc) as usize;
    let mut cnt: usize;
    if sc < 9 {
        let mut i: usize = 0;
        while i < 2 && 4 * small_cnt(sc, i) > usage
            invariant
                sc < 9,
                i <= 2,
                i >= 1 ==> 4 * small_cnt_tab(sc as int, 0) > usage,
                i >= 2 ==> 4 * small_cnt_tab(sc as int, 1) > usage,
            decreases 2 - i,
        {
            i = i + 1;
        }
        cnt = small_cnt(sc, i);
        assert(1 <= cnt <= 31);
    } else {
        proof { crate::bits::lemma_fields_usize(sc); }
        cnt = med_cnt(sc & 3);
        proof {
            lemma_halvings_positive(cnt as nat, usage as nat, size as nat);
        }
        let ghost c0 = cnt;
        while (cnt & 1) == 0 && 4 * cnt > usage
            invariant
                1 <= cnt <= 32,
                1 <= size <= 131056,
                halve_for_usage(cnt as nat, usage as nat) == halve_for_usage(c0 as nat, usage as nat),
            decreases cnt,
        {
            proof { crate::bits::lemma_fields_usize(cnt); }
            proof {
                lemma_halvings_positive(cnt as nat, usage as nat, size as nat);
            }
            cnt = cnt >> 1;
        }
        proof { crate::bits::lemma_fields_usize(cnt); }
        let ghost c1 = cnt;
        proof {
            lemma_halvings_positive(cnt as nat, usage as nat, size as nat);
        }
        assert(size * cnt <= 131056 * 32) by (nonlinear_arith) requires size <= 131056, cnt <= 32;
        while size * cnt >= 65536 * UNIT
            invariant
                1 <= cnt <= 32,
                1 <= size <= 131056,
                size * cnt <= 131056 * 32,
                halve_for_size(cnt as nat, size as nat) == halve_for_size(c1 as nat, size as nat),
            decreases cnt,
        {
            proof { crate::bits::lemma_fields_usize(cnt); }
            assert(size * cnt <= 131056 * 32) by (nonlinear_arith) requires size <= 131056, cnt <= 32;
            assert(cnt >= 2) by (nonlinear_arith) requires size * cnt >= 65536 * 16, size <= 131056;
            proof {
                lemma_halvings_positive(cnt as nat, usage as nat, size as nat);
            }
            cnt = cnt >> 1;
            assert(size * cnt <= 131056 * 32) by (nonlinear_arith) requires size <= 131056, cnt <= 32;
        }
    }
    assert(size * cnt <= 131056 * 32) by (nonlinear_arith) requires size <= 131056, cnt <= 32;
    if cnt == 1 && size * cnt + UNIT <= PAGESIZE / 2 {
        cnt = 2;
    }
    cnt
}

/// `x` rounded up to a whole number of pages.
pub open spec fn page_round(x: nat) -> nat {
    ((x + 4095) / 4096) * 4096
}

/// Rounding up to whole pages never shrinks.
pub proof fn lemma_page_round_covers(x: nat)
    ensures
        page_round(x) >= x,
{
    assert(((x + 4095) / 4096) * 4096 >= x) by (nonlinear_arith);
}

/// Rounds `x` up to a whole number of pages.
pub fn round_to_page(x: usize) -> (r: usize)
    requires
        x + 4095 <= usize::MAX,
    ensures
        r == page_round(x as nat),
{
    let y = x + (PAGESIZE - 1);
    proof {
        crate::bits::lemma_fields_usize(y);
    }
    y & !(PAGESIZE - 1)
}

/// For a group that gets a mapping of its own, a large group of a class
/// that is not heavily used is cut down (to 2, 3 or 5 slots, by class
/// modulo 4 and group size) unless the class is bouncing.
pub open spec fn trimmed_count(sc: int, cnt: nat, usage_adj: nat, nosmall: bool) -> nat {
    let size = UNIT * class_units(sc);
    let k = sc % 4;
    if 4 * cnt > usage_adj && !nosmall {
        if k == 1 && size * cnt > 8 * PAGESIZE {
            2
        } else if k == 2 && size * cnt > 4 * PAGESIZE {
            3
        } else if k == 0 && size * cnt > 8 * PAGESIZE {
            3
        } else if k == 0 && size * cnt > 2 * PAGESIZE {
            5
        } else {
            cnt
        }
    } else {
        cnt
    }
}

/// Whether the group is made a single slot mapped just for the request:
/// when the class is not bouncing, the group has at most 7 slots, and the
/// request's own mapping is smaller than one slot, or is at least 4 pages
/// while the class usage is low.
pub open spec fn single_for_request(sc: int, cnt: nat, req: nat, usage: nat, nosmall: bool) -> bool {
    let size = UNIT * class_units(sc);
    let req_needed = page_round((req + IB + UNIT) as nat);
    &&& !nosmall
    &&& cnt <= 7
    &&& (req_needed < size + UNIT || (req_needed >= 4 * PAGESIZE && 2 * cnt > usage))
}

/// The slot count, mapping length and active index of a group of class
/// `sc` that gets a mapping of its own.
pub open spec fn mapped_plan_spec(sc: int, cnt: nat, req: nat, usage: nat, usage_adj: nat, nosmall: bool) -> (nat, nat, nat) {
    let size = UNIT * class_units(sc);
    let c1 = trimmed_count(sc, cnt, usage_adj, nosmall);
    let (c2, needed) = if single_for_request(sc, c1, req, usage, nosmall) {
        (1nat, page_round((req + IB + UNIT) as nat))
    } else {
        (c1, page_round((size * c1 + UNIT) as nat))
    };
    let a0 = (4096 - UNIT) / size;
    let a1: nat = if a0 == 0 { 0 } else { (a0 - 1) as nat };
    let a2: nat = if a1 > c2 - 1 { (c2 - 1) as nat } else { a1 };
    let a3: nat = if a2 > 31 { 31 } else { a2 };
    (c2, needed, a3)
}

/// Cuts a large group of a class that is not heavily used down to 2, 3 or
/// 5 slots (see `trimmed_count`).
fn trim_count(sc: usize, cnt: usize, usage_adj: usize, nosmall: bool) -> (r: usize)
    requires
        sc < 48,
        1 <= cnt <= 32,
    ensures
        r == trimmed_count(sc as int, cnt as nat, usage_adj as nat, nosmall),
        1 <= r <= 32,
{
    proof {
        crate::meta::lemma_class_units_bounds(sc as int);
        crate::bits::lemma_fields_usize(sc);
    }
    let size = UNIT * size_class(sc) as usize;
    assert(size * cnt <= 131056 * 32) by (nonlinear_arith) requires size <= 131056, cnt <= 32;
    if 4 * cnt > usage_adj && !nosmall {
        let k = sc & 3;
        if k == 1 && size * cnt > 8 * PAGESIZE {
            return 2;
        } else if k == 2 && size * cnt > 4 * PAGESIZE {
            return 3;
        } else if k == 0 && size * cnt > 8 * PAGESIZE {
            return 3;
        } else if k == 0 && size * cnt > 2 * PAGESIZE {
            return 5;
        }
    }
    cnt
}

/// Plans a group of class `sc` that gets a mapping of its own: the slot
/// count (possibly trimmed, or a single slot for the request), the length
/// of the mapping, and how many slots are active at first (those that
/// start within the first page, at least one).
pub fn mapped_plan(sc: usize, cnt: usize, req: usize, usage: usize, usage_adj: usize, nosmall: bool) -> (r: (usize, usize, usize))
    requires
        sc < 48,
        1 <= cnt <= 32,
        req < crate::meta::MMAP_THRESHOLD,
    ensures
        (r.0 as nat, r.1 as nat, r.2 as nat) == mapped_plan_spec(sc as int, cnt as nat, req as nat, usage as nat, usage_adj as nat, nosmall),
        1 <= r.0 <= 32,
        r.2 < r.0,
        r.1 % 4096 == 0,
        4096 <= r.1 <= 0x80_0000,
{
    proof {
        crate::meta::lemma_class_units_bounds(sc as int);
    }
    let size = UNIT * size_class(sc) as usize;
    let mut cnt = trim_count(sc, cnt, usage_adj, nosmall);
    assert(size * cnt <= 131056 * 32) by (nonlinear_arith) requires size <= 131056, cnt <= 32;
    let mut needed = round_to_page(size * cnt + UNIT);
    if !nosmall && cnt <= 7 {
        let req_needed = round_to_page(req + IB + UNIT);
        if req_needed < size + UNIT || (req_needed >= 4 * PAGESIZE && 2 * cnt > usage) {
            cnt = 1;
            needed = req_needed;
        }
    }
    let mut aidx = (4096 - UNIT) / size;
    if aidx == 0 {
        aidx = 1;
    }
    aidx = aidx - 1;
    if aidx > cnt - 1 {
        aidx = cnt - 1;
    }
    if aidx > 0x1F {
        aidx = 0x1F;
    }
    (cnt, needed, aidx)
}

} // verus!
