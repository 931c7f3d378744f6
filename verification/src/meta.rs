//! Group metadata of the allocator: the size classes, the packed bit
//! fields of a group record, and the availability masks of its slots.

use vstd::prelude::*;
use vstd::std_specs::bits::{u32_leading_zeros, axiom_u32_leading_zeros};

verus! {

/// Requests of this size or more get a group of their own, mapped directly.
pub const MMAP_THRESHOLD: usize = 131052;

/// The allocation unit in bytes.
pub const UNIT: usize = 16;

/// The in-band header bytes in front of each slot.
pub const IB: usize = 4;

/// The page size the allocator works with.
pub const PAGESIZE: usize = 4096;

/// Size class `i` in units of 16 bytes.
pub open spec fn class_units(i: int) -> nat {
    seq![
        1nat, 2, 3, 4, 5, 6, 7, 8,
        9, 10, 12, 15,
        18, 20, 25, 31,
        36, 42, 50, 63,
        72, 84, 102, 127,
        146, 170, 204, 255,
        292, 340, 409, 511,
        584, 682, 818, 1023,
        1169, 1364, 1637, 2047,
        2340, 2730, 3276, 4095,
        4680, 5460, 6552, 8191,
    ][i]
}

/// Every size class holds between 1 and 8191 units, and the classes grow.
pub proof fn lemma_class_units_bounds(i: int)
    requires
        0 <= i < 48,
    ensures
        1 <= class_units(i) <= 8191,
        i > 0 ==> class_units(i - 1) < class_units(i),
{
}

/// Larger classes hold more units.
pub proof fn lemma_class_units_mono(i: int, j: int)
    requires
        0 <= i <= j < 48,
    ensures
        class_units(i) <= class_units(j),
    decreases j - i,
{
    if i < j {
        lemma_class_units_mono(i, j - 1);
        lemma_class_units_bounds(j);
    }
}

/// The size of the slots of class `sc`, in units.
pub fn size_class(sc: usize) -> (r: u16)
    requires
        sc < 48,
    ensures
        r as nat == class_units(sc as int),
{
    let t: [u16; 48] = [
        1, 2, 3, 4, 5, 6, 7, 8,
        9, 10, 12, 15,
        18, 20, 25, 31,
        36, 42, 50, 63,
        72, 84, 102, 127,
        146, 170, 204, 255,
        292, 340, 409, 511,
        584, 682, 818, 1023,
        1169, 1364, 1637, 2047,
        2340, 2730, 3276, 4095,
        4680, 5460, 6552, 8191,
    ];
    t[sc]
}

/// The page size used for group mappings.
pub fn pgsz() -> (r: usize)
    ensures
        r == PAGESIZE,
{
    PAGESIZE
}

/// The number of units a request of `n` bytes needs, header included.
pub open spec fn needed_units(n: nat) -> nat {
    (n + 3) / 16 + 1
}

/// The least size class whose slots hold `n` bytes: `size_to_class(n)`
/// returns the class `r` with `class_units(r) >= needed_units(n)` and
/// `class_units(r - 1) < needed_units(n)`.
pub open spec fn is_least_class(r: int, n: nat) -> bool {
    &&& 0 <= r < 48
    &&& class_units(r) >= needed_units(n)
    &&& r == 0 || class_units(r - 1) < needed_units(n)
}

/// The least size class for `n` bytes.
pub open spec fn class_for(n: nat) -> int {
    choose|r: int| is_least_class(r, n)
}

/// There is one least size class for a size.
pub proof fn lemma_least_class_unique(a: int, b: int, n: nat)
    requires
        is_least_class(a, n),
        is_least_class(b, n),
    ensures
        a == b,
{
    if a < b {
        lemma_class_units_mono(a, b - 1);
    } else if b < a {
        lemma_class_units_mono(b, a - 1);
    }
}

/// Where the leading zeros of a 32-bit value put it: the value lies in the
/// window `[2^(31-lz), 2^(32-lz))`.
proof fn lemma_lz_window(x: u32, lz: u32)
    by (bit_vector)
    requires
        11 <= x < 8192,
        lz <= 32,
        x >> ((32 - lz) as u32) == 0,
        lz < 32 ==> (x >> ((31 - lz) as u32)) & 1u32 != 0u32,
    ensures
        (lz == 28 && 8 <= x < 16) || (lz == 27 && 16 <= x < 32) || (lz == 26 && 32 <= x < 64)
            || (lz == 25 && 64 <= x < 128) || (lz == 24 && 128 <= x < 256) || (lz == 23 && 256 <= x < 512)
            || (lz == 22 && 512 <= x < 1024) || (lz == 21 && 1024 <= x < 2048) || (lz == 20 && 2048 <= x < 4096)
            || (lz == 19 && 4096 <= x < 8192),
{
}

/// The size class of a request of `n` bytes: the least class whose slots
/// hold `n` bytes plus the in-band header.
pub fn size_to_class(n: usize) -> (r: usize)
    requires
        (n + 3) / 16 <= 8190,
    ensures
        is_least_class(r as int, n as nat),
{
    let t = n + IB - 1;
    proof { crate::bits::lemma_fields_usize(t); }
    let mut n_units = t >> 4;
    if n_units < 10 {
        return n_units;
    }
    n_units = n_units + 1;
    let x = n_units as u32;
    let lz = x.leading_zeros();
    proof {
        axiom_u32_leading_zeros(x);
        lemma_lz_window(x, lz);
    }
    let mut i = (28 - lz as usize) * 4 + 8;
    if n_units > size_class(i + 1) as usize {
        i = i + 2;
    }
    if n_units > size_class(i) as usize {
        i = i + 1;
    }
    i
}

/// Requests this large cannot be served (they would overflow the size
/// arithmetic).
pub open spec fn overflows(n: nat) -> bool {
    n >= usize::MAX / 2 - 4096
}

/// Whether a request of `n` bytes is too large to be served.
pub fn size_overflows(n: usize) -> (r: bool)
    ensures
        r == overflows(n as nat),
{
    n >= usize::MAX / 2 - 4096
}

/// The metadata of a group of slots. `bitfields` packs the index of the
/// last slot (5 bits), whether the group may be freed (1 bit), the size
/// class (6 bits) and the length of its own mapping in pages (the rest).
/// `active_idx` is the group header's index of the last slot handed out so
/// far.
#[derive(Clone, Copy)]
pub struct Meta {
    pub mem: usize,
    pub avail_mask: u32,
    pub freed_mask: u32,
    pub bitfields: usize,
    pub active_idx: u8,
}

/// The 5-bit field: index of the last slot.
pub open spec fn field_last_idx(b: usize) -> nat {
    (b % 32) as nat
}

/// The 1-bit field: whether the group may be freed.
pub open spec fn field_freeable(b: usize) -> bool {
    (b / 32) % 2 == 1
}

/// The 6-bit field: the size class.
pub open spec fn field_sizeclass(b: usize) -> nat {
    ((b / 64) % 64) as nat
}

/// The remaining high bits: the mapping length in pages.
pub open spec fn field_maplen(b: usize) -> nat {
    (b / 4096) as nat
}

impl Meta {
    /// A record with every field zero, as a freshly cleared record is.
    pub open spec fn is_zero(&self) -> bool {
        &&& self.mem == 0
        &&& self.avail_mask == 0
        &&& self.freed_mask == 0
        &&& self.bitfields == 0
        &&& self.active_idx == 0
    }

    /// A cleared record.
    pub fn zero() -> (r: Meta)
        ensures
            r.is_zero(),
    {
        Meta { mem: 0, avail_mask: 0, freed_mask: 0, bitfields: 0, active_idx: 0 }
    }

    /// The index of the last slot of the group.
    pub open spec fn last_idx_spec(&self) -> nat {
        field_last_idx(self.bitfields)
    }

    /// Whether the group may be freed.
    pub open spec fn freeable_spec(&self) -> bool {
        field_freeable(self.bitfields)
    }

    /// The size class of the group.
    pub open spec fn sizeclass_spec(&self) -> nat {
        field_sizeclass(self.bitfields)
    }

    /// The length of the group's own mapping in pages (0 if it has none).
    pub open spec fn maplen_spec(&self) -> nat {
        field_maplen(self.bitfields)
    }

    /// Reads the index of the last slot.
    pub fn last_idx(&self) -> (r: usize)
        ensures
            r == self.last_idx_spec(),
            r < 32,
    {
        let b = self.bitfields;
        proof { crate::bits::lemma_fields_usize(b); }
        self.bitfields & 0x1F
    }

    /// Stores the index of the last slot (its low 5 bits); the other
    /// fields keep their values.
    pub fn set_last_idx(&mut self, v: usize)
        ensures
            final(self).last_idx_spec() == v % 32,
            final(self).freeable_spec() == old(self).freeable_spec(),
            final(self).sizeclass_spec() == old(self).sizeclass_spec(),
            final(self).maplen_spec() == old(self).maplen_spec(),
            final(self).mem == old(self).mem,
            final(self).avail_mask == old(self).avail_mask,
            final(self).freed_mask == old(self).freed_mask,
            final(self).active_idx == old(self).active_idx,
    {
        let b = self.bitfields;
        let nb = (b & !0x1F) | (v & 0x1F);
        assert(nb % 32 == v % 32 && (nb / 32) % 2 == (b / 32) % 2 && (nb / 64) % 64 == (b / 64) % 64
            && nb / 4096 == b / 4096) by (bit_vector)
            requires nb == (b & !0x1Fusize) | (v & 0x1Fusize);
        self.bitfields = nb;
    }

    /// Reads whether the group may be freed.
    pub fn freeable(&self) -> (r: bool)
        ensures
            r == self.freeable_spec(),
    {
        let b = self.bitfields;
        proof { crate::bits::lemma_fields_usize(b); }
        (self.bitfields >> 5) & 1 != 0
    }

    /// Stores whether the group may be freed; the other fields keep their
    /// values.
    pub fn set_freeable(&mut self, v: bool)
        ensures
            final(self).freeable_spec() == v,
            final(self).last_idx_spec() == old(self).last_idx_spec(),
            final(self).sizeclass_spec() == old(self).sizeclass_spec(),
            final(self).maplen_spec() == old(self).maplen_spec(),
            final(self).mem == old(self).mem,
            final(self).avail_mask == old(self).avail_mask,
            final(self).freed_mask == old(self).freed_mask,
            final(self).active_idx == old(self).active_idx,
    {
        let b = self.bitfields;
        let bit: usize = if v { 0x20 } else { 0 };
        let nb = (b & !0x20usize) | bit;
        assert(((nb / 32) % 2 == 1) == (bit != 0) && nb % 32 == b % 32 && (nb / 64) % 64 == (b / 64) % 64
            && nb / 4096 == b / 4096) by (bit_vector)
            requires nb == (b & !0x20usize) | bit, bit == 0 || bit == 0x20usize;
        self.bitfields = nb;
    }

    /// Reads the size class.
    pub fn sizeclass(&self) -> (r: usize)
        ensures
            r == self.sizeclass_spec(),
            r < 64,
    {
        let b = self.bitfields;
        proof { crate::bits::lemma_fields_usize(b); }
        (self.bitfields >> 6) & 0x3F
    }

    /// Stores the size class (its low 6 bits); the other fields keep their
    /// values.
    pub fn set_sizeclass(&mut self, v: usize)
        ensures
            final(self).sizeclass_spec() == v % 64,
            final(self).last_idx_spec() == old(self).last_idx_spec(),
            final(self).freeable_spec() == old(self).freeable_spec(),
            final(self).maplen_spec() == old(self).maplen_spec(),
            final(self).mem == old(self).mem,
            final(self).avail_mask == old(self).avail_mask,
            final(self).freed_mask == old(self).freed_mask,
            final(self).active_idx == old(self).active_idx,
    {
        let b = self.bitfields;
        let nb = (b & !(0x3Fusize << 6)) | ((v & 0x3F) << 6);
        assert((nb / 64) % 64 == v % 64 && nb % 32 == b % 32 && (nb / 32) % 2 == (b / 32) % 2
            && nb / 4096 == b / 4096) by (bit_vector)
            requires nb == (b & !(0x3Fusize << 6)) | ((v & 0x3Fusize) << 6);
        self.bitfields = nb;
    }

    /// Reads the mapping length in pages.
    pub fn maplen(&self) -> (r: usize)
        ensures
            r == self.maplen_spec(),
    {
        let b = self.bitfields;
        proof { crate::bits::lemma_fields_usize(b); }
        self.bitfields >> 12
    }

    /// Stores the mapping length in pages (as many low bits as fit); the
    /// other fields keep their values.
    pub fn set_maplen(&mut self, v: usize)
        ensures
            final(self).maplen_spec() == (v << 12usize) / 4096,
            v < 0x10_0000 ==> final(self).maplen_spec() == v,
            final(self).last_idx_spec() == old(self).last_idx_spec(),
            final(self).freeable_spec() == old(self).freeable_spec(),
            final(self).sizeclass_spec() == old(self).sizeclass_spec(),
            final(self).mem == old(self).mem,
            final(self).avail_mask == old(self).avail_mask,
            final(self).freed_mask == old(self).freed_mask,
            final(self).active_idx == old(self).active_idx,
    {
        let b = self.bitfields;
        let nb = (b & 0xFFF) | (v << 12);
        assert(nb / 4096 == (v << 12usize) / 4096 && nb % 32 == b % 32 && (nb / 32) % 2 == (b / 32) % 2
            && (nb / 64) % 64 == (b / 64) % 64) by (bit_vector)
            requires nb == (b & 0xFFFusize) | (v << 12usize);
        assert(v < 0x10_0000 ==> (v << 12usize) / 4096 == v) by (bit_vector);
        self.bitfields = nb;
    }
}

/// The distance between consecutive slots of a group: the whole mapping
/// for a group of one slot with its own mapping, else the slot size of its
/// size class.
pub open spec fn stride_of(g: Meta) -> nat {
    if g.last_idx_spec() == 0 && g.maplen_spec() > 0 {
        (g.maplen_spec() * 4096 - UNIT) as nat
    } else {
        (UNIT * class_units(g.sizeclass_spec() as int)) as nat
    }
}

/// The group's size class indexes the table unless it is a group of one
/// slot with its own mapping.
pub open spec fn stride_defined(g: Meta) -> bool {
    (g.last_idx_spec() == 0 && g.maplen_spec() > 0) || g.sizeclass_spec() < 48
}

/// The distance between consecutive slots of the group.
pub fn get_stride(g: &Meta) -> (r: usize)
    requires
        stride_defined(*g),
    ensures
        r == stride_of(*g),
        r >= UNIT,
        r % UNIT == 0,
{
    let ml = g.maplen();
    if g.last_idx() == 0 && ml > 0 {
        let b = g.bitfields;
        assert(b / 4096 * 4096 <= b) by (nonlinear_arith);
        return ml * 4096 - UNIT;
    }
    UNIT * size_class(g.sizeclass()) as usize
}

/// The mask with bits `0..=k` set (all 32 bits when `k >= 31`).
pub open spec fn low_mask(k: u32) -> u32 {
    if k >= 31 {
        0xffff_ffffu32
    } else {
        ((2u32 << k) - 1) as u32
    }
}

/// The mask with bits `0..=k` set.
pub fn mask_through(k: u32) -> (r: u32)
    ensures
        r == low_mask(k),
{
    if k >= 31 {
        0xffff_ffff
    } else {
        assert(2u32 << k >= 1) by (bit_vector) requires k < 31;
        (2u32 << k) - 1
    }
}

} // verus!
