//! Aligned allocation: checking the request, and moving the start of a
//! slot handed out for it up to the alignment asked for.

use vstd::prelude::*;
use crate::meta::{Meta, stride_of, stride_defined, get_stride, UNIT, IB};
use crate::slot::{u16_at, u32_at, slot_index_at, offset_units_at, nominal_size_at, get_slot_index,
    write_u16, write_u32, set_size};
use crate::realloc::{slot_start, slot_end};

verus! {

/// The error numbers the allocator reports.
pub const EINVAL: i32 = 22;
pub const ENOMEM: i32 = 12;

/// Why an aligned allocation failed.
#[derive(Clone, Copy, Debug, PartialEq, Eq, Structural)]
pub enum AlignedAllocError {
    InvalidAlignment,
    OutOfMemory,
}

/// Whether `a` is a power of two: it is not zero and its lowest set bit is
/// all of it.
pub open spec fn single_bit(a: usize) -> bool {
    a != 0 && a & vstd::wrapping::usize_specs::wrapping_add(!a, 1) == a
}

/// Whether aligned allocation is disabled: `malloc` is replaced by the
/// program but `aligned_alloc` is not.
pub fn disable_aligned_alloc(malloc_replaced: bool, aligned_alloc_replaced: bool) -> (r: bool)
    ensures
        r == (malloc_replaced && !aligned_alloc_replaced),
{
    malloc_replaced && !aligned_alloc_replaced
}

/// The alignment a slot is moved to: at least 16.
pub open spec fn effective_align(align: usize) -> usize {
    if align <= UNIT { UNIT } else { align }
}

/// Checks a request for `len` bytes aligned to `align`: an alignment that
/// is not a power of two (zero included) is invalid; a length that overflows
/// with the alignment, an alignment of 2^35 or more, or aligned allocation
/// being disabled is out of memory. Otherwise returns the size to ask
/// `malloc` for: enough to move the start up to the alignment.
pub fn aligned_request(align: usize, len: usize, malloc_replaced: bool, aligned_alloc_replaced: bool)
    -> (r: Result<usize, AlignedAllocError>)
    ensures
        !single_bit(align) ==> r == Err::<usize, AlignedAllocError>(AlignedAllocError::InvalidAlignment),
        single_bit(align) && (len > usize::MAX - align || align >= 0x8_0000_0000
            || (malloc_replaced && !aligned_alloc_replaced))
            ==> r == Err::<usize, AlignedAllocError>(AlignedAllocError::OutOfMemory),
        single_bit(align) && !(len > usize::MAX - align || align >= 0x8_0000_0000
            || (malloc_replaced && !aligned_alloc_replaced))
            ==> r == Ok::<usize, AlignedAllocError>((len + effective_align(align) - UNIT) as usize),
{
    if align == 0 || align & (!align).wrapping_add(1) != align {
        return Err(AlignedAllocError::InvalidAlignment);
    }
    if len > usize::MAX - align || align as u64 >= 0x8_0000_0000u64 {
        return Err(AlignedAllocError::OutOfMemory);
    }
    if disable_aligned_alloc(malloc_replaced, aligned_alloc_replaced) {
        return Err(AlignedAllocError::OutOfMemory);
    }
    let a = if align <= UNIT { UNIT } else { align };
    Ok(len + (a - UNIT))
}

/// The error an aligned allocation that returned `ptr` (0 for none)
/// reports, given the error number it left: none on success, an invalid
/// alignment for `EINVAL`, else out of memory.
pub fn aligned_alloc_inner(ptr: usize, errno: i32) -> (r: Result<usize, AlignedAllocError>)
    ensures
        ptr != 0 ==> r == Ok::<usize, AlignedAllocError>(ptr),
        ptr == 0 && errno == EINVAL ==> r == Err::<usize, AlignedAllocError>(AlignedAllocError::InvalidAlignment),
        ptr == 0 && errno != EINVAL ==> r == Err::<usize, AlignedAllocError>(AlignedAllocError::OutOfMemory),
{
    if ptr == 0 {
        if errno == EINVAL {
            Err(AlignedAllocError::InvalidAlignment)
        } else {
            Err(AlignedAllocError::OutOfMemory)
        }
    } else {
        Ok(ptr)
    }
}

/// The result code of `posix_memalign` for the outcome of the aligned
/// allocation, with the pointer to store on success.
pub fn convert_aligned_alloc_result(result: Result<usize, AlignedAllocError>) -> (r: (i32, Option<usize>))
    ensures
        result matches Ok(p) ==> r == (0i32, Some(p)),
        result == Err::<usize, AlignedAllocError>(AlignedAllocError::InvalidAlignment) ==> r == (EINVAL, None::<usize>),
        result == Err::<usize, AlignedAllocError>(AlignedAllocError::OutOfMemory) ==> r == (ENOMEM, None::<usize>),
{
    match result {
        Ok(p) => (0, Some(p)),
        Err(AlignedAllocError::InvalidAlignment) => (EINVAL, None),
        Err(AlignedAllocError::OutOfMemory) => (ENOMEM, None),
    }
}

/// What `posix_memalign` answers before trying to allocate: `ENOMEM` for
/// a length of 0, `EINVAL` for an alignment below the size of a pointer
/// (8), else nothing yet.
pub fn posix_memalign_check(align: usize, len: usize) -> (r: Option<i32>)
    ensures
        len == 0 ==> r == Some(ENOMEM),
        len != 0 && align < 8 ==> r == Some(EINVAL),
        len != 0 && align >= 8 ==> r is None,
{
    if len == 0 {
        return Some(ENOMEM);
    }
    if align < 8 {
        return Some(EINVAL);
    }
    None
}

/// The size a reallocation of `m` elements of `n` bytes asks for, or
/// `None` when the product does not fit in a word.
pub fn reallocarray_size(m: usize, n: usize) -> (r: Option<usize>)
    ensures
        r is None <==> m * n > usize::MAX,
        r matches Some(t) ==> t == m * n,
{
    crate::calloc::calloc_size(m, n)
}

/// Truncating to 32 bits keeps the value modulo 2^32.
proof fn lemma_trunc32(x: u64)
    by (bit_vector)
    ensures
        (x as u32) as u64 == x % 0x1_0000_0000u64,
{
}

/// Truncating to 16 bits keeps the value modulo 2^16.
proof fn lemma_trunc16(x: u64)
    by (bit_vector)
    ensures
        (x as u16) as u64 == x % 0x1_0000u64,
{
}

/// Writes the header of a slot moved to `q`: its offset in units from the
/// storage (at 16), in 16 bits, or in 32 bits flagged by a nonzero byte at
/// `q - 4`, and its index.
fn write_moved_header(mem: &mut [u8], q: usize, idx: usize)
    requires
        16 <= q <= old(mem)@.len(),
        q % UNIT == 0,
        idx < 32,
    ensures
        final(mem)@.len() == old(mem)@.len(),
        offset_units_at(final(mem)@, q as int) == ((q - UNIT) / (UNIT as int)) % 0x1_0000_0000,
        slot_index_at(final(mem)@, q as int) == idx,
        forall|k: int| 0 <= k < old(mem)@.len() && !(q - 8 <= k < q) ==> #[trigger] final(mem)@[k] == old(mem)@[k],
{
    let offset = (q - UNIT) / UNIT;
    if offset <= 0xffff {
        write_u16(mem, q - 2, offset as u16);
        mem[q - 4] = 0;
    } else {
        write_u16(mem, q - 2, 0);
        proof {
            lemma_trunc32(offset as u64);
        }
        write_u32(mem, q - 8, offset as u32);
        mem[q - 4] = 1;
    }
    let ghost m1 = mem@;
    mem[q - 3] = idx as u8;
    proof {
        assert(mem@[q - 4] == m1[q - 4]);
        assert forall|k: int| q - 8 <= k < q && k != q - 3 implies #[trigger] mem@[k] == m1[k] by {}
    }
}

/// Records in front of a slot's original start `start` that its start
/// moved to `q`: the distance in units, and reserved field 7.
fn record_move(mem: &mut [u8], start: usize, q: usize)
    requires
        16 <= start,
        start + 16 <= q,
        q <= old(mem)@.len(),
    ensures
        final(mem)@.len() == old(mem)@.len(),
        u16_at(final(mem)@, start - 2) == ((q - start) / (UNIT as int)) % 0x1_0000,
        final(mem)@[start - 3] == 0xe0,
        forall|k: int| 0 <= k < old(mem)@.len() && !(start - 3 <= k < start) ==> #[trigger] final(mem)@[k] == old(mem)@[k],
{
    let d = (q - start) / UNIT;
    proof {
        lemma_trunc16(d as u64);
    }
    write_u16(mem, start - 2, d as u16);
    let ghost m1 = mem@;
    mem[start - 3] = 0xe0;
    proof {
        assert(mem@[start - 2] == m1[start - 2] && mem@[start - 1] == m1[start - 1]);
    }
}

/// Whether `adjust_aligned` can move the slot at `p` (at address `p_addr`)
/// in the memory `mem` of group `g` to an alignment of `align` for `len`
/// bytes: when it returns true, what `adjust_aligned` requires holds. It
/// returns false for a slot whose tail past the block would be 4 GiB or
/// more, which its header cannot record.
pub fn can_adjust_aligned(g: &Meta, mem: &[u8], p: usize, p_addr: usize, align: usize, len: usize) -> (r: bool)
    ensures
        r ==> {
            let idx = slot_index_at(mem@, p as int) as int;
            let stride = stride_of(*g) as int;
            &&& stride_defined(*g)
            &&& UNIT <= align
            &&& align % UNIT == 0
            &&& p % UNIT == 0
            &&& p_addr % UNIT == 0
            &&& p_addr + align <= usize::MAX
            &&& slot_start(stride, idx) <= p
            &&& p + len + align - UNIT <= slot_end(stride, idx)
            &&& slot_end(stride, idx) - p - len < 0x1_0000_0000
            &&& slot_end(stride, idx) + IB <= mem@.len()
        },
{
    proof {
        vstd::slice::axiom_spec_len(mem);
    }
    if !(g.sizeclass() < 48 || (g.last_idx() == 0 && g.maplen() > 0)) {
        return false;
    }
    if align < UNIT || align % UNIT != 0 || p % UNIT != 0 || p_addr % UNIT != 0 || p_addr > usize::MAX - align {
        return false;
    }
    if p < 8 || p > mem.len() {
        return false;
    }
    let idx = get_slot_index(mem, p);
    let stride = get_stride(g);
    let sidx = match stride.checked_mul(idx) {
        Some(v) => v,
        None => return false,
    };
    if mem.len() < UNIT || sidx > mem.len() - UNIT {
        return false;
    }
    let start = UNIT + sidx;
    if stride > mem.len() - start {
        return false;
    }
    let end = start + stride - IB;
    if start > p || p > end {
        return false;
    }
    if len > end - p || align - UNIT > end - p - len {
        return false;
    }
    end - p - len < 0x1_0000_0000u64 as usize
}

/// Moves the start of the slot at `p` in the memory `mem` of group `g`
/// (`p` being at address `p_addr`), handed out for `len + align - 16`
/// bytes, up to a multiple of `align`, and records `len` bytes there. A
/// slot that moves gets a new header naming its offset from the storage
/// (16 bits, or 32 bits flagged when it does not fit) and its index, and
/// its original start records, with reserved field 7, how far it moved.
/// Returns the new start.
#[verifier::spinoff_prover]
#[verifier::rlimit(40)]
pub fn adjust_aligned(g: &Meta, mem: &mut [u8], p: usize, p_addr: usize, align: usize, len: usize) -> (q: usize)
    requires
        stride_defined(*g),
        UNIT <= align,
        align % UNIT == 0,
        p % UNIT == 0,
        p_addr % UNIT == 0,
        p_addr + align <= usize::MAX,
        ({
            let idx = slot_index_at(old(mem)@, p as int) as int;
            let stride = stride_of(*g) as int;
            &&& slot_start(stride, idx) <= p
            &&& p + len + align - UNIT <= slot_end(stride, idx)
            &&& slot_end(stride, idx) - p - len < 0x1_0000_0000
            &&& slot_end(stride, idx) + IB <= old(mem)@.len()
        }),
    ensures
        final(mem)@.len() == old(mem)@.len(),
        ({
            let idx = slot_index_at(old(mem)@, p as int);
            let stride = stride_of(*g) as int;
            let start = slot_start(stride, idx as int);
            let end = slot_end(stride, idx as int);
            &&& p <= q < p + align
            &&& (p_addr + (q - p)) % (align as int) == 0
            &&& q % UNIT == 0
            &&& q + len <= end
            &&& nominal_size_at(final(mem)@, q as int, end) == len
            &&& slot_index_at(final(mem)@, q as int) == idx
            &&& q != p ==> {
                &&& offset_units_at(final(mem)@, q as int) == ((q - UNIT) / (UNIT as int)) % 0x1_0000_0000
                &&& u16_at(final(mem)@, start - 2) == ((q - start) / (UNIT as int)) % 0x1_0000
                &&& final(mem)@[start - 3] == 0xe0
            }
        }),
{
    let idx = get_slot_index(mem, p);
    let stride = get_stride(g);
    proof {
        vstd::slice::axiom_spec_len(&*old(mem));
        assert(stride * idx >= 0) by (nonlinear_arith) requires stride >= 0, idx >= 0;
    }
    let start = UNIT + stride * idx;
    let end = start + stride - IB;
    let rem = p_addr % align;
    let adj = if rem == 0 { 0 } else { align - rem };
    proof {
        vstd::arithmetic::div_mod::lemma_mod_mod(p_addr as int, 16, (align / 16) as int);
        assert(align == 16 * (align / 16)) by (nonlinear_arith) requires align % 16 == 0;
        assert(rem % 16 == 0);
        if rem != 0 {
            let qq = p_addr as int / align as int;
            vstd::arithmetic::div_mod::lemma_fundamental_div_mod(p_addr as int, align as int);
            assert(align * (qq + 1) == align * qq + align) by (nonlinear_arith);
            assert(align * (qq + 1) == (qq + 1) * align) by (nonlinear_arith);
            vstd::arithmetic::div_mod::lemma_mod_multiples_basic(qq + 1, align as int);
        }
    }
    if adj == 0 {
        set_size(mem, p, end, len);
        return p;
    }
    let q = p + adj;
    write_moved_header(mem, q, idx);
    let ghost m2 = mem@;
    set_size(mem, q, end, len);
    let ghost m3 = mem@;
    record_move(mem, start, q);
    proof {
        assert forall|k: int| q - 8 <= k < q && k != q - 3 implies #[trigger] mem@[k] == m2[k] by {
            assert(m3[k] == m2[k]);
        }
        assert(mem@[q - 3] == m3[q - 3]);
        assert(offset_units_at(mem@, q as int) == offset_units_at(m2, q as int));
        assert forall|k: int| q <= k < end implies #[trigger] mem@[k] == m3[k] by {}
        assert(nominal_size_at(mem@, q as int, end as int) == nominal_size_at(m3, q as int, end as int));
    }
    q
}

} // verus!
