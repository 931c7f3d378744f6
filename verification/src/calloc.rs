//! Zeroed allocation: the size check, and clearing fresh memory while
//! skipping whole pages that are already zero.

use vstd::prelude::*;

verus! {

/// The size a zeroed allocation of `m` elements of `n` bytes needs, or
/// `None` when the product does not fit in a word.
pub fn calloc_size(m: usize, n: usize) -> (r: Option<usize>)
    ensures
        r is None <==> m * n > usize::MAX,
        r matches Some(t) ==> t == m * n,
{
    if n != 0 && m > usize::MAX / n {
        proof {
            let q = usize::MAX as int / n as int;
            vstd::arithmetic::div_mod::lemma_fundamental_div_mod(usize::MAX as int, n as int);
            assert(m * n >= (q + 1) * n) by (nonlinear_arith) requires n > 0, m >= q + 1;
            assert((q + 1) * n == n * q + n) by (nonlinear_arith);
        }
        return None;
    }
    proof {
        if n != 0 {
            let q = usize::MAX as int / n as int;
            vstd::arithmetic::div_mod::lemma_fundamental_div_mod(usize::MAX as int, n as int);
            assert(m * n <= q * n) by (nonlinear_arith) requires n > 0, m <= q;
            assert(q * n == n * q) by (nonlinear_arith);
        }
    }
    Some(n * m)
}

/// Whether fresh memory at `p` is known to be all zero already: it never
/// is here.
pub fn allzerop(p: usize) -> (r: bool)
    ensures
        !r,
{
    false
}

/// Zeroes `mem[lo..hi]`.
fn clear_range(mem: &mut [u8], lo: usize, hi: usize)
    requires
        lo <= hi <= old(mem)@.len(),
    ensures
        final(mem)@.len() == old(mem)@.len(),
        forall|k: int| lo <= k < hi ==> #[trigger] final(mem)@[k] == 0,
        forall|k: int| 0 <= k < old(mem)@.len() && !(lo <= k < hi) ==> #[trigger] final(mem)@[k] == old(mem)@[k],
{
    let mut k = lo;
    while k < hi
        invariant
            lo <= k <= hi <= old(mem)@.len(),
            mem@.len() == old(mem)@.len(),
            forall|j: int| lo <= j < k ==> #[trigger] mem@[j] == 0,
            forall|j: int| 0 <= j < old(mem)@.len() && !(lo <= j < k) ==> #[trigger] mem@[j] == old(mem)@[j],
        decreases hi - k,
    {
        mem[k] = 0;
        k = k + 1;
    }
}

/// Whether the 16 bytes before `pp` are all zero.
fn zero16_before(mem: &[u8], pp: usize) -> (r: bool)
    requires
        16 <= pp <= mem@.len(),
    ensures
        r <==> forall|k: int| pp - 16 <= k < pp ==> #[trigger] mem@[k] == 0,
{
    let mut k = pp - 16;
    while k < pp
        invariant
            pp - 16 <= k <= pp <= mem@.len(),
            forall|j: int| pp - 16 <= j < k ==> #[trigger] mem@[j] == 0,
        decreases pp - k,
    {
        if mem[k] != 0 {
            return false;
        }
        k = k + 1;
    }
    true
}

/// Clears the `n` bytes of fresh memory `mem`, which starts at address
/// `addr`, from the end backwards: the partial page at the end is zeroed,
/// then each whole page is scanned 16 bytes at a time from its end and
/// zeroed only from the first nonzero bytes found down. Returns how many
/// bytes at the start are left to clear: under a page.
pub fn mal0_clear(mem: &mut [u8], addr: usize, n: usize) -> (r: usize)
    requires
        old(mem)@.len() == n,
        addr + n <= usize::MAX,
    ensures
        final(mem)@.len() == n,
        r <= n,
        r < 4096,
        forall|k: int| r <= k < n ==> #[trigger] final(mem)@[k] == 0,
        forall|k: int| 0 <= k < r ==> #[trigger] final(mem)@[k] == old(mem)@[k],
        n < 4096 ==> r == n && final(mem)@ == old(mem)@,
{
    if n < 4096 {
        return n;
    }
    let mut pp = n;
    let mut i = (addr + n) % 4096;
    loop
        invariant
            mem@.len() == n,
            n >= 4096,
            i <= pp <= n,
            forall|k: int| pp <= k < n ==> #[trigger] mem@[k] == 0,
            forall|k: int| 0 <= k < pp ==> #[trigger] mem@[k] == old(mem)@[k],
        decreases pp - i,
    {
        clear_range(mem, pp - i, pp);
        pp = pp - i;
        if pp < 4096 {
            return pp;
        }
        let ghost p0 = pp;
        i = 4096;
        loop
            invariant
                mem@.len() == n,
                p0 >= 4096,
                p0 <= n,
                0 <= i <= 4096,
                i % 16 == 0,
                pp == p0 - (4096 - i),
                forall|k: int| pp <= k < n ==> #[trigger] mem@[k] == 0,
                forall|k: int| 0 <= k < pp ==> #[trigger] mem@[k] == old(mem)@[k],
            ensures
                i <= pp,
                pp == p0 - (4096 - i),
                forall|k: int| pp <= k < n ==> #[trigger] mem@[k] == 0,
                forall|k: int| 0 <= k < pp ==> #[trigger] mem@[k] == old(mem)@[k],
            decreases i,
        {
            if i == 0 {
                break;
            }
            if !zero16_before(mem, pp) {
                break;
            }
            i = i - 16;
            pp = pp - 16;
            if i == 0 {
                break;
            }
        }
    }
}

/// Zeroes all of fresh memory `mem`, which starts at address `addr`:
/// `mal0_clear`, then the bytes it leaves at the start.
pub fn calloc_clear(mem: &mut [u8], addr: usize)
    requires
        addr + old(mem)@.len() <= usize::MAX,
    ensures
        final(mem)@.len() == old(mem)@.len(),
        forall|k: int| 0 <= k < final(mem)@.len() ==> #[trigger] final(mem)@[k] == 0,
{
    let n = mem.len();
    let r = mal0_clear(mem, addr, n);
    if r > 0 {
        clear_range(mem, 0, r);
    }
}

} // verus!
