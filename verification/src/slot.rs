//! The in-band header in front of each slot and the encoding of a slot's
//! size in its tail. A group's memory is a byte slice whose index 0 is the
//! group's start; positions below are offsets into it.

use vstd::prelude::*;
use crate::meta::{UNIT, IB, Meta, get_stride, stride_of, stride_defined};

verus! {

/// The 16-bit little-endian value at `i`.
pub open spec fn u16_at(mem: Seq<u8>, i: int) -> nat {
    mem[i] as nat + mem[i + 1] as nat * 0x100
}

/// The 32-bit little-endian value at `i`.
pub open spec fn u32_at(mem: Seq<u8>, i: int) -> nat {
    u16_at(mem, i) + u16_at(mem, i + 2) * 0x1_0000
}

/// The 64-bit little-endian value at `i`.
pub open spec fn u64_at(mem: Seq<u8>, i: int) -> nat {
    u32_at(mem, i) + u32_at(mem, i + 4) * 0x1_0000_0000
}

/// Reads the 16-bit value at `i`.
pub fn read_u16(mem: &[u8], i: usize) -> (r: u16)
    requires
        i + 2 <= mem@.len(),
    ensures
        r as nat == u16_at(mem@, i as int),
{
    mem[i] as u16 + (mem[i + 1] as u16) * 0x100
}

/// Writes the 16-bit value `v` at `i`; no other byte changes.
pub fn write_u16(mem: &mut [u8], i: usize, v: u16)
    requires
        i + 2 <= old(mem)@.len(),
    ensures
        final(mem)@.len() == old(mem)@.len(),
        u16_at(final(mem)@, i as int) == v as nat,
        forall|k: int| 0 <= k < old(mem)@.len() && !(i <= k < i + 2) ==> #[trigger] final(mem)@[k] == old(mem)@[k],
{
    mem[i] = (v % 0x100) as u8;
    mem[i + 1] = (v / 0x100) as u8;
}

/// Reads the 32-bit value at `i`.
pub fn read_u32(mem: &[u8], i: usize) -> (r: u32)
    requires
        i + 4 <= mem@.len(),
    ensures
        r as nat == u32_at(mem@, i as int),
{
    proof {
        vstd::slice::axiom_spec_len(mem);
    }
    let lo = read_u16(mem, i) as u32;
    let hi = read_u16(mem, i + 2) as u32;
    lo + hi * 0x1_0000
}

/// Writes the 32-bit value `v` at `i`; no other byte changes.
pub fn write_u32(mem: &mut [u8], i: usize, v: u32)
    requires
        i + 4 <= old(mem)@.len(),
    ensures
        final(mem)@.len() == old(mem)@.len(),
        u32_at(final(mem)@, i as int) == v as nat,
        forall|k: int| 0 <= k < old(mem)@.len() && !(i <= k < i + 4) ==> #[trigger] final(mem)@[k] == old(mem)@[k],
{
    proof {
        vstd::slice::axiom_spec_len(&*old(mem));
    }
    write_u16(mem, i, (v % 0x1_0000) as u16);
    write_u16(mem, i + 2, (v / 0x1_0000) as u16);
}

/// Reads the 64-bit value at `i`.
pub fn read_u64(mem: &[u8], i: usize) -> (r: u64)
    requires
        i + 8 <= mem@.len(),
    ensures
        r as nat == u64_at(mem@, i as int),
{
    proof {
        vstd::slice::axiom_spec_len(mem);
    }
    let lo = read_u32(mem, i) as u64;
    let hi = read_u32(mem, i + 4) as u64;
    lo + hi * 0x1_0000_0000
}

/// Writes the 64-bit value `v` at `i`; no other byte changes.
pub fn write_u64(mem: &mut [u8], i: usize, v: u64)
    requires
        i + 8 <= old(mem)@.len(),
    ensures
        final(mem)@.len() == old(mem)@.len(),
        u64_at(final(mem)@, i as int) == v as nat,
        forall|k: int| 0 <= k < old(mem)@.len() && !(i <= k < i + 8) ==> #[trigger] final(mem)@[k] == old(mem)@[k],
{
    proof {
        vstd::slice::axiom_spec_len(&*old(mem));
    }
    write_u32(mem, i, (v % 0x1_0000_0000) as u32);
    let ghost m1 = mem@;
    write_u32(mem, i + 4, (v / 0x1_0000_0000) as u32);
    proof {
        assert(u32_at(mem@, i as int) == u32_at(m1, i as int)) by {
            assert(mem@[i as int] == m1[i as int] && mem@[i + 1] == m1[i + 1]);
            assert(mem@[i + 2] == m1[i + 2] && mem@[i + 3] == m1[i + 3]);
        }
    }
}

/// The group header at the start of a group's memory names its record:
/// the record's index plus one (0 naming none).
pub open spec fn group_owner_at(mem: Seq<u8>) -> nat {
    u64_at(mem, 0)
}

/// Writes into the header of a group that record `m` describes it.
pub fn write_group_owner(mem: &mut [u8], m: usize)
    requires
        8 <= old(mem)@.len(),
        m < usize::MAX,
    ensures
        final(mem)@.len() == old(mem)@.len(),
        group_owner_at(final(mem)@) == m + 1,
        forall|k: int| 8 <= k < old(mem)@.len() ==> #[trigger] final(mem)@[k] == old(mem)@[k],
{
    write_u64(mem, 0, m as u64 + 1);
}

/// Reads which record the group header at the start of `mem` names (its
/// index plus one, 0 naming none).
pub fn read_group_owner(mem: &[u8]) -> (r: u64)
    requires
        8 <= mem@.len(),
    ensures
        r as nat == group_owner_at(mem@),
{
    read_u64(mem, 0)
}

/// The slot index recorded in the header of the slot at `p`.
pub open spec fn slot_index_at(mem: Seq<u8>, p: int) -> nat {
    (mem[p - 3] % 32) as nat
}

/// The distance, in units, from the group's storage to the slot at `p`,
/// as its header records it: 16 bits in front of the slot, or 32 bits
/// further in front when the flag byte at `p - 4` is set.
pub open spec fn offset_units_at(mem: Seq<u8>, p: int) -> nat {
    if mem[p - 4] != 0 {
        u32_at(mem, p - 8)
    } else {
        u16_at(mem, p - 2)
    }
}

/// The number of bytes reserved at the tail of the slot at `p` ending at
/// `end`: small counts sit in the top 3 bits of the header byte, larger
/// ones in the 32 bits in front of `end`.
pub open spec fn reserved_at(mem: Seq<u8>, p: int, end: int) -> nat {
    let code = mem[p - 3] / 32;
    if code >= 5 {
        u32_at(mem, end - 4)
    } else {
        code as nat
    }
}

/// The size a slot at `p` ending at `end` was handed out with.
pub open spec fn nominal_size_at(mem: Seq<u8>, p: int, end: int) -> int {
    end - reserved_at(mem, p, end) - p
}

/// Reads the slot index from the header of the slot at `p`.
pub fn get_slot_index(mem: &[u8], p: usize) -> (r: usize)
    requires
        3 <= p <= mem@.len(),
    ensures
        r == slot_index_at(mem@, p as int),
        r < 32,
{
    let b = mem[p - 3];
    proof { crate::bits::lemma_fields_u8(b); }
    (b & 31) as usize
}

/// Reads the distance in units from the group's storage to the slot at `p`.
pub fn slot_offset(mem: &[u8], p: usize) -> (r: usize)
    requires
        8 <= p <= mem@.len(),
    ensures
        r == offset_units_at(mem@, p as int),
{
    if mem[p - 4] != 0 {
        read_u32(mem, p - 8) as usize
    } else {
        read_u16(mem, p - 2) as usize
    }
}

/// Records that the slot at `p` ending at `end` holds `n` bytes: the
/// reserved tail length goes in the header byte (up to 4) or in the 32
/// bits in front of `end`, and the first reserved byte is zeroed. The slot
/// index in the header byte is kept.
pub fn set_size(mem: &mut [u8], p: usize, end: usize, n: usize)
    requires
        4 <= p,
        p + n <= end <= old(mem)@.len(),
        end - p - n < 0x1_0000_0000,
    ensures
        final(mem)@.len() == old(mem)@.len(),
        nominal_size_at(final(mem)@, p as int, end as int) == n,
        slot_index_at(final(mem)@, p as int) == slot_index_at(old(mem)@, p as int),
        end - p - n > 0 ==> final(mem)@[end - (end - p - n)] == 0,
        forall|k: int| 0 <= k < old(mem)@.len() && k != p - 3 && !(p + n <= k < end) ==> #[trigger] final(mem)@[k] == old(mem)@[k],
{
    let mut reserved = end - p - n;
    if reserved > 0 {
        mem[end - reserved] = 0;
    }
    if reserved >= 5 {
        write_u32(mem, end - 4, reserved as u32);
        mem[end - 5] = 0;
        reserved = 5;
    }
    let hb = mem[p - 3];
    let r8 = reserved as u8;
    let nb = (hb & 31) | (r8 << 5);
    assert(nb % 32 == hb % 32 && nb / 32 == r8) by (bit_vector)
        requires r8 <= 5, nb == (hb & 31) | (r8 << 5);
    mem[p - 3] = nb;
}

/// Reads the size the slot at `p` ending at `end` was handed out with.
pub fn get_nominal_size(mem: &[u8], p: usize, end: usize) -> (r: usize)
    requires
        4 <= p <= end <= mem@.len(),
        reserved_at(mem@, p as int, end as int) <= end - p,
    ensures
        r == nominal_size_at(mem@, p as int, end as int),
{
    let mut reserved = (mem[p - 3] >> 5) as usize;
    let hb = mem[p - 3];
    proof { crate::bits::lemma_fields_u8(hb); }
    if reserved >= 5 {
        reserved = read_u32(mem, end - 4) as usize;
    }
    end - reserved - p
}

/// `slack` with every bit below its highest set bit also set (for slack
/// below 256).
pub open spec fn smear8(slack: usize) -> usize {
    let m1 = slack | (slack >> 1usize);
    let m2 = m1 | (m1 >> 2usize);
    m2 | (m2 >> 4usize)
}

/// The offset, in units, at which a slot starting at `base` is placed:
/// one past the slot's previous offset (or the counter `ctr` for a fresh
/// slot), reduced modulo 256 and folded into `0..=slack`.
pub open spec fn cycle_offset(mem: Seq<u8>, base: int, ctr: usize, slack: usize) -> usize {
    let start: usize = if mem[base - 3] != 0 {
        ((u16_at(mem, base - 2) + 1) % 256) as usize
    } else {
        (ctr % 256) as usize
    };
    if start <= slack {
        start
    } else {
        let o = start & smear8(slack);
        if o > slack { (o - slack - 1) as usize } else { o }
    }
}

/// Folding with the smeared mask lands in `0..=slack`.
proof fn lemma_fold_offset(start: usize, slack: usize)
    by (bit_vector)
    requires
        start < 256,
        start > slack,
    ensures
        (start & smear8(slack)) > slack ==> (start & smear8(slack)) - slack - 1 <= slack,
{
}

/// Picks the offset, in units, for a slot starting at `base`.
fn pick_offset(mem: &[u8], base: usize, ctr: usize, slack: usize) -> (off: usize)
    requires
        8 <= base <= mem@.len(),
    ensures
        off == cycle_offset(mem@, base as int, ctr, slack),
        off <= slack,
{
    let mut off: usize = if mem[base - 3] != 0 {
        (read_u16(mem, base - 2) as usize + 1) % 256
    } else {
        ctr % 256
    };
    if off > slack {
        proof {
            lemma_fold_offset(off, slack);
        }
        let mut m = slack;
        m = m | (m >> 1);
        m = m | (m >> 2);
        m = m | (m >> 4);
        off = off & m;
        if off > slack {
            off = off - slack - 1;
        }
    }
    off
}

/// Records at `base` that the slot moved `off` units on, and clears the
/// flag byte in front of the moved slot.
fn write_jump(mem: &mut [u8], base: usize, off: usize)
    requires
        8 <= base,
        0 < off < 0x1_0000,
        base + UNIT * off <= old(mem)@.len(),
    ensures
        final(mem)@.len() == old(mem)@.len(),
        final(mem)@[base + UNIT * off - 4] == 0,
        forall|k: int| 0 <= k < old(mem)@.len() && !(base - 3 <= k < base) && k != base + UNIT * off - 4
            ==> #[trigger] final(mem)@[k] == old(mem)@[k],
{
    write_u16(mem, base - 2, off as u16);
    mem[base - 3] = 7 << 5;
    mem[base + UNIT * off - 4] = 0;
}

/// Writes the header of the slot at `p`: its distance `rel` in units from
/// the storage and its index.
fn write_slot_header(mem: &mut [u8], p: usize, rel: u16, idx: u8)
    requires
        4 <= p <= old(mem)@.len(),
        idx < 32,
    ensures
        final(mem)@.len() == old(mem)@.len(),
        u16_at(final(mem)@, p - 2) == rel as nat,
        slot_index_at(final(mem)@, p as int) == idx,
        final(mem)@[p - 4] == old(mem)@[p - 4],
        forall|k: int| 0 <= k < old(mem)@.len() && !(p - 3 <= k < p) ==> #[trigger] final(mem)@[k] == old(mem)@[k],
{
    write_u16(mem, p - 2, rel);
    mem[p - 3] = idx;
}

/// Places the `idx`th slot of group `g` for a request of `n` bytes: picks
/// the slot's offset within the slack (cycling so that reuse moves the
/// start), writes the header that records the offset from the storage and
/// the slot index, and records the size. Returns the position of the slot.
pub fn enframe(mem: &mut [u8], g: &Meta, idx: usize, n: usize, ctr: usize) -> (p: usize)
    requires
        stride_defined(*g),
        idx < 32,
        stride_of(*g) >= IB + n,
        stride_of(*g) - IB - n < 0x1_0000_0000,
        UNIT + stride_of(*g) * (idx + 1) <= old(mem)@.len(),
        stride_of(*g) * idx + UNIT * 256 < UNIT * 0x1_0000,
        old(mem)@[UNIT + stride_of(*g) * idx - 4] == 0,
    ensures
        ({
            let stride = stride_of(*g) as int;
            let base = UNIT + stride * idx;
            let end = base + stride - IB;
            let slack = ((stride - IB - n) / UNIT as int) as usize;
            &&& final(mem)@.len() == old(mem)@.len()
            &&& p == base + UNIT * cycle_offset(old(mem)@, base, ctr, slack)
            &&& p + n <= end
            &&& p % UNIT == 0
            &&& slot_index_at(final(mem)@, p as int) == idx
            &&& final(mem)@[p - 4] == 0
            &&& offset_units_at(final(mem)@, p as int) == (p - UNIT) / UNIT as int
            &&& nominal_size_at(final(mem)@, p as int, end) == n
            &&& forall|k: int| 0 <= k < old(mem)@.len() && !(base - 4 <= k < end) ==> #[trigger] final(mem)@[k] == old(mem)@[k]
        }),
{
    let stride = get_stride(g);
    proof {
        vstd::slice::axiom_spec_len(&*old(mem));
        assert(stride * idx + stride == stride * (idx + 1)) by (nonlinear_arith);
        assert(stride * idx >= 0) by (nonlinear_arith) requires stride >= 0, idx >= 0;
        let q = stride as int / 16;
        assert(stride * idx == 16 * (q * idx)) by (nonlinear_arith) requires stride == 16 * q;
        vstd::arithmetic::div_mod::lemma_mod_multiples_basic(q * idx, 16);
    }
    let slack = (stride - IB - n) / UNIT;
    let base = UNIT + stride * idx;
    let end = base + stride - IB;
    let off = pick_offset(mem, base, ctr, slack);
    assert(UNIT * off <= stride - IB - n);
    let ghost m0 = mem@;
    let mut p = base;
    if off != 0 {
        write_jump(mem, base, off);
        p = base + UNIT * off;
    }
    let ghost m1 = mem@;
    assert(m1[p - 4] == 0);
    let rel = (p - UNIT) / UNIT;
    write_slot_header(mem, p, rel as u16, idx as u8);
    let ghost m2 = mem@;
    set_size(mem, p, end, n);
    assert(mem@[p - 4] == m2[p - 4]);
    p
}

} // verus!
