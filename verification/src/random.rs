//! `random`/`srandom`/`initstate`/`setstate`: the additive lagged
//! Fibonacci generator of BSD, over a caller-supplied state table.
//!
//! A state table is a vector of 32-bit words. Word 0 holds the packed
//! bookkeeping (degree `n`, lags `i` and `j`) while the table is not in use;
//! words `1..` are the generator words `x[0..]`. With degree 0 the table
//! degenerates to a single word advanced by a 31-bit congruential step.

use vstd::prelude::*;
use crate::rand::{lcg32, lcg32_spec, lcg64, lcg64_spec};

verus! {

/// A spin lock flag; `true` while held.
pub struct SpinLock {
    pub locked: bool,
}

/// Takes the spin lock. With exclusive access the lock must be free, else
/// the caller would spin forever.
pub fn lock(l: &mut SpinLock)
    requires
        !old(l).locked,
    ensures
        final(l).locked,
{
    l.locked = true;
}

/// Releases the spin lock.
pub fn unlock(l: &mut SpinLock)
    ensures
        !final(l).locked,
{
    l.locked = false;
}

/// One 31-bit congruential step: `(1103515245 * x + 12345) mod 2^31`.
pub open spec fn lcg31_spec(x: u32) -> u32 {
    (lcg32_spec(x) as nat % 0x8000_0000nat) as u32
}

/// The 31-bit congruential step used by the degenerate (degree 0) table.
pub fn lcg31(x: u32) -> (r: u32)
    ensures
        r == lcg31_spec(x),
{
    let v = lcg32(x);
    proof { crate::bits::lemma_fields_u32(v); }
    v & 0x7fff_ffff
}

/// The 64-bit generator applied `k` times to `s`.
pub open spec fn lcg64_iter(s: u64, k: nat) -> u64
    decreases k,
{
    if k == 0 {
        s
    } else {
        lcg64_spec(lcg64_iter(s, (k - 1) as nat))
    }
}

/// Word `k` that seeding with `seed` writes before the first word is made odd.
pub open spec fn seeded_word(seed: u32, k: nat) -> u32 {
    (lcg64_iter(seed as u64, k + 1) as nat / 0x1_0000_0000nat) as u32
}

/// The bookkeeping word that records degree `n` and lags `i`, `j`.
pub open spec fn pack_state(n: u32, i: u32, j: u32) -> u32 {
    ((n as nat * 0x1_0000 + i as nat * 0x100 + j as nat) % 0x1_0000_0000nat) as u32
}

/// The degree recorded in a bookkeeping word.
pub open spec fn word_degree(w: u32) -> u32 {
    w / 0x1_0000
}

/// The lag `i` recorded in a bookkeeping word.
pub open spec fn word_lag_i(w: u32) -> u32 {
    (w / 0x100) % 0x100
}

/// The lag `j` recorded in a bookkeeping word.
pub open spec fn word_lag_j(w: u32) -> u32 {
    w % 0x100
}

/// The degrees a table can have.
pub open spec fn valid_degree(n: u32) -> bool {
    n == 0 || n == 7 || n == 15 || n == 31 || n == 63
}

/// A table that `setstate` can switch to: its bookkeeping word names a
/// degree the table has room for, and lags below the degree.
pub open spec fn table_ok(t: Seq<u32>) -> bool {
    let w = t[0];
    &&& t.len() >= 2
    &&& valid_degree(word_degree(w))
    &&& t.len() >= word_degree(w) + 1
    &&& word_degree(w) > 0 ==> word_lag_i(w) < word_degree(w) && word_lag_j(w) < word_degree(w)
}

/// Whether `t` is a table `setstate` can switch to (see `table_ok`).
pub fn table_valid(t: &Vec<u32>) -> (r: bool)
    ensures
        r == table_ok(t@),
{
    if t.len() < 2 {
        return false;
    }
    let w = t[0];
    let n = w / 0x1_0000;
    let i = (w / 0x100) % 0x100;
    let j = w % 0x100;
    if !(n == 0 || n == 7 || n == 15 || n == 31 || n == 63) {
        return false;
    }
    if t.len() < n as usize + 1 {
        return false;
    }
    if n > 0 && !(i < n && j < n) {
        return false;
    }
    true
}

/// The degree `initstate` picks for a state buffer of `n` bytes (n >= 8).
pub open spec fn degree_for(n: usize) -> u32 {
    if n < 32 {
        0
    } else if n < 64 {
        7
    } else if n < 128 {
        15
    } else if n < 256 {
        31
    } else {
        63
    }
}

/// Packing and unpacking with shifts and masks agree with the arithmetic
/// description of the bookkeeping word.
proof fn lemma_pack(n: u32, i: u32, j: u32)
    requires
        n < 0x1_0000,
        i < 0x100,
        j < 0x100,
    ensures
        (n << 16u32) | (i << 8u32) | j == pack_state(n, i, j),
        word_degree(pack_state(n, i, j)) == n,
        word_lag_i(pack_state(n, i, j)) == i,
        word_lag_j(pack_state(n, i, j)) == j,
{
    let w = (n << 16u32) | (i << 8u32) | j;
    assert(w == n * 0x1_0000 + i * 0x100 + j) by (bit_vector)
        requires n < 0x1_0000, i < 0x100, j < 0x100, w == (n << 16u32) | (i << 8u32) | j;
    let v: int = n * 0x1_0000 + i * 0x100 + j;
    assert(v < 0x1_0000_0000);
    vstd::arithmetic::div_mod::lemma_small_mod(v as nat, 0x1_0000_0000nat);
    vstd::arithmetic::div_mod::lemma_fundamental_div_mod_converse(v, 0x1_0000, n as int, i * 0x100 + j);
    vstd::arithmetic::div_mod::lemma_fundamental_div_mod_converse(v, 0x100, n * 0x100 + i, j as int);
    vstd::arithmetic::div_mod::lemma_fundamental_div_mod_converse(n * 0x100 + i, 0x100, n as int, i as int);
}

/// Moving a lag on by one wraps at the degree.
proof fn lemma_next_lag(i: u32, n: u32)
    requires
        i < n,
    ensures
        (i + 1) % (n as int) == if i + 1 == n { 0 } else { i + 1 },
{
    if i + 1 == n {
        vstd::arithmetic::div_mod::lemma_mod_self_0(n as int);
    } else {
        vstd::arithmetic::div_mod::lemma_small_mod((i + 1) as nat, n as nat);
    }
}

/// The state of `random`: the table in use, its degree and lags, and the
/// lock that guards them.
pub struct RandomState {
    pub table: Vec<u32>,
    pub n: u32,
    pub i: u32,
    pub j: u32,
    pub guard: SpinLock,
}

/// The table the generator starts with (degree 31, lags 3 and 0).
pub fn default_table() -> (t: Vec<u32>)
    ensures
        t@.len() == 32,
{
    vec![
        0x00000000, 0x5851f42d, 0xc0b18ccf, 0xcbb5f646,
        0xc7033129, 0x30705b04, 0x20fd5db4, 0x9a8b7f78,
        0x502959d8, 0xab894868, 0x6c0356a7, 0x88cdb7ff,
        0xb477d43f, 0x70a3a52b, 0xa8e4baf1, 0xfd8341fc,
        0x8ae16fd9, 0x742d2f7a, 0x0d1f0796, 0x76035e09,
        0x40f7702c, 0x6fa72ca5, 0xaaa84157, 0x58a0df74,
        0xc74a0364, 0xae533cc4, 0x04185faf, 0x6de3b115,
        0x0cab8628, 0xf043bfa4, 0x398150e9, 0x37521657,
    ]
}

impl RandomState {
    /// The state is consistent and the lock is free.
    pub open spec fn wf(&self) -> bool {
        &&& self.inv()
        &&& !self.guard.locked
    }

    /// The table has room for the degree, the lags are below the degree and
    /// all fit the bookkeeping word.
    pub open spec fn inv(&self) -> bool {
        &&& self.table@.len() >= 2
        &&& self.table@.len() >= self.n + 1
        &&& valid_degree(self.n)
        &&& self.i < 0x100
        &&& self.j < 0x100
        &&& self.n > 0 ==> self.i < self.n && self.j < self.n
    }

    /// The generator before any seeding: the built-in table, degree 31,
    /// lags 3 and 0.
    pub fn new() -> (r: Self)
        ensures
            r.wf(),
            r.n == 31,
            r.i == 3,
            r.j == 0,
    {
        RandomState { table: default_table(), n: 31, i: 3, j: 0, guard: SpinLock { locked: false } }
    }

    /// Records degree and lags in word 0 of the table in use.
    fn savestate(&mut self)
        requires
            old(self).inv(),
        ensures
            final(self).inv(),
            final(self).guard == old(self).guard,
            final(self).table@ == old(self).table@.update(0, pack_state(old(self).n, old(self).i, old(self).j)),
            final(self).n == old(self).n,
            final(self).i == old(self).i,
            final(self).j == old(self).j,
    {
        proof {
            lemma_pack(self.n, self.i, self.j);
        }
        let w = (self.n << 16) | (self.i << 8) | self.j;
        self.table.set(0, w);
    }

    /// Reads degree and lags back from word 0 of the table in use.
    fn loadstate(&mut self)
        requires
            old(self).table@.len() >= 1,
        ensures
            final(self).table@ == old(self).table@,
            final(self).n == word_degree(old(self).table@[0]),
            final(self).i == word_lag_i(old(self).table@[0]),
            final(self).j == word_lag_j(old(self).table@[0]),
            final(self).guard == old(self).guard,
    {
        let w = self.table[0];
        self.n = w >> 16;
        self.i = (w >> 8) & 0xff;
        self.j = w & 0xff;
        proof { crate::bits::lemma_fields_u32(w); }
    }

    /// Seeds the table in use: with degree 0 the single word becomes the
    /// seed; otherwise the lags are reset and the words are filled from the
    /// 64-bit generator started at `seed`, the first word made odd.
    fn __srandom(&mut self, seed: u32)
        requires
            old(self).table@.len() >= 2,
            old(self).table@.len() >= old(self).n + 1,
            valid_degree(old(self).n),
            old(self).i < 0x100,
            old(self).j < 0x100,
        ensures
            final(self).inv(),
            final(self).guard == old(self).guard,
            final(self).n == old(self).n,
            final(self).table@.len() == old(self).table@.len(),
            old(self).n == 0 ==> {
                &&& final(self).table@ == old(self).table@.update(1, seed)
                &&& final(self).i == old(self).i
                &&& final(self).j == old(self).j
            },
            old(self).n > 0 ==> {
                &&& final(self).i == (if old(self).n == 31 || old(self).n == 7 { 3u32 } else { 1u32 })
                &&& final(self).j == 0
                &&& final(self).table@[1] == seeded_word(seed, 0) | 1
                &&& forall|k: int| 1 <= k < old(self).n ==> #[trigger] final(self).table@[k + 1] == seeded_word(seed, k as nat)
                &&& forall|k: int| k == 0 || old(self).n + 1 <= k < old(self).table@.len() ==>
                    #[trigger] final(self).table@[k] == old(self).table@[k]
            },
    {
        if self.n == 0 {
            self.table.set(1, seed);
            return;
        }
        self.i = if self.n == 31 || self.n == 7 { 3 } else { 1 };
        self.j = 0;
        let mut s: u64 = seed as u64;
        let mut k: usize = 0;
        let n = self.n as usize;
        let ghost t0 = self.table@;
        while k < n
            invariant
                n == self.n,
                0 < n < 0x1_0000,
                k <= n,
                self.table@.len() == t0.len(),
                t0.len() >= n + 1,
                s == lcg64_iter(seed as u64, k as nat),
                self.i == (if n == 31 || n == 7 { 3u32 } else { 1u32 }),
                self.j == 0,
                self.guard == old(self).guard,
                forall|t: int| 0 <= t < k ==> #[trigger] self.table@[t + 1] == seeded_word(seed, t as nat),
                forall|t: int| t == 0 || k + 1 <= t < t0.len() ==> #[trigger] self.table@[t] == t0[t],
            decreases n - k,
        {
            s = lcg64(s);
            proof { crate::bits::lemma_shr_u64(s); }
            self.table.set(k + 1, (s >> 32) as u32);
            k = k + 1;
        }
        let first = self.table[1];
        self.table.set(1, first | 1);
        assert(forall|k: int| 1 <= k < old(self).n ==> #[trigger] self.table@[k + 1] == seeded_word(seed, k as nat));
    }

    /// `random`: under the lock, advances the generator one step. With
    /// degree 0 the single word takes a 31-bit congruential step and is
    /// returned; otherwise `x[i] += x[j]`, `x[i] >> 1` is returned and both
    /// lags move on by one, wrapping at the degree.
    pub fn random(&mut self) -> (r: i64)
        requires
            old(self).wf(),
        ensures
            final(self).wf(),
            final(self).n == old(self).n,
            0 <= r < 0x8000_0000,
            old(self).n == 0 ==> {
                &&& final(self).table@ == old(self).table@.update(1, lcg31_spec(old(self).table@[1]))
                &&& r == lcg31_spec(old(self).table@[1])
                &&& final(self).i == old(self).i
                &&& final(self).j == old(self).j
            },
            old(self).n > 0 ==> {
                let v = vstd::wrapping::u32_specs::wrapping_add(
                    old(self).table@[old(self).i + 1], old(self).table@[old(self).j + 1]);
                &&& final(self).table@ == old(self).table@.update(old(self).i + 1, v)
                &&& r == v / 2
                &&& final(self).i == (old(self).i + 1) % (old(self).n as int)
                &&& final(self).j == (old(self).j + 1) % (old(self).n as int)
            },
    {
        lock(&mut self.guard);
        let k: u32;
        if self.n == 0 {
            let val = lcg31(self.table[1]);
            self.table.set(1, val);
            k = val;
        } else {
            let i = self.i as usize;
            let j = self.j as usize;
            let new_val = self.table[i + 1].wrapping_add(self.table[j + 1]);
            self.table.set(i + 1, new_val);
            proof { crate::bits::lemma_fields_u32(new_val); }
            k = new_val >> 1;
            proof {
                lemma_next_lag(self.i, self.n);
                lemma_next_lag(self.j, self.n);
            }
            self.i = self.i + 1;
            if self.i == self.n {
                self.i = 0;
            }
            self.j = self.j + 1;
            if self.j == self.n {
                self.j = 0;
            }
        }
        unlock(&mut self.guard);
        k as i64
    }

    /// `srandom`: under the lock, seeds the table in use.
    pub fn srandom(&mut self, seed: u32)
        requires
            old(self).wf(),
        ensures
            final(self).wf(),
            final(self).n == old(self).n,
            old(self).n == 0 ==> final(self).table@ == old(self).table@.update(1, seed),
            old(self).n > 0 ==> {
                &&& final(self).i == (if old(self).n == 31 || old(self).n == 7 { 3u32 } else { 1u32 })
                &&& final(self).j == 0
                &&& final(self).table@[1] == seeded_word(seed, 0) | 1
                &&& forall|k: int| 1 <= k < old(self).n ==> #[trigger] final(self).table@[k + 1] == seeded_word(seed, k as nat)
            },
    {
        lock(&mut self.guard);
        self.__srandom(seed);
        unlock(&mut self.guard);
    }

    /// `initstate`: switches to the caller's buffer of `n` bytes, picking
    /// the degree from `n`, and seeds it with `seed`. The table in use so
    /// far is handed back with its bookkeeping recorded. A buffer of fewer
    /// than 8 bytes is refused and handed back untouched.
    pub fn initstate(&mut self, seed: u32, state: Vec<u32>, n: usize) -> (res: Result<Vec<u32>, Vec<u32>>)
        requires
            old(self).wf(),
            state@.len() * 4 >= n,
        ensures
            final(self).wf(),
            n < 8 ==> res == Err::<Vec<u32>, Vec<u32>>(state) && *final(self) == *old(self),
            n >= 8 ==> {
                &&& res matches Ok(old_table)
                &&& old_table@ == old(self).table@.update(0, pack_state(old(self).n, old(self).i, old(self).j))
                &&& final(self).n == degree_for(n)
                &&& final(self).table@.len() == state@.len()
                &&& final(self).table@[0] == pack_state(final(self).n, final(self).i, final(self).j)
                &&& degree_for(n) == 0 ==> final(self).table@[1] == seed
                &&& degree_for(n) > 0 ==> {
                    &&& final(self).i == (if degree_for(n) == 31 || degree_for(n) == 7 { 3u32 } else { 1u32 })
                    &&& final(self).j == 0
                    &&& final(self).table@[1] == seeded_word(seed, 0) | 1
                    &&& forall|k: int| 1 <= k < degree_for(n) ==> #[trigger] final(self).table@[k + 1] == seeded_word(seed, k as nat)
                }
            },
    {
        if n < 8 {
            return Err(state);
        }
        assert(state@.len() >= degree_for(n) + 1);
        lock(&mut self.guard);
        self.savestate();
        let deg: u32 = if n < 32 {
            0
        } else if n < 64 {
            7
        } else if n < 128 {
            15
        } else if n < 256 {
            31
        } else {
            63
        };
        let mut old_table = state;
        std::mem::swap(&mut self.table, &mut old_table);
        self.n = deg;
        self.__srandom(seed);
        self.savestate();
        unlock(&mut self.guard);
        Ok(old_table)
    }

    /// `setstate`: switches to a table saved earlier by `initstate` or
    /// `setstate`, reading degree and lags from its word 0. The table in use
    /// so far is handed back with its bookkeeping recorded.
    pub fn setstate(&mut self, state: Vec<u32>) -> (old_table: Vec<u32>)
        requires
            old(self).wf(),
            table_ok(state@),
        ensures
            final(self).wf(),
            old_table@ == old(self).table@.update(0, pack_state(old(self).n, old(self).i, old(self).j)),
            final(self).table@ == state@,
            final(self).n == word_degree(state@[0]),
            final(self).i == word_lag_i(state@[0]),
            final(self).j == word_lag_j(state@[0]),
    {
        lock(&mut self.guard);
        self.savestate();
        let mut old_table = state;
        std::mem::swap(&mut self.table, &mut old_table);
        self.loadstate();
        assert(word_degree(self.table@[0]) < 0x1_0000) by {
            let w = self.table@[0];
            assert(w / 0x1_0000 < 0x1_0000);
        }
        unlock(&mut self.guard);
        old_table
    }
}

/// Law: the bookkeeping word that is saved when a table is set aside gives
/// back the same degree and lags when the table is taken up again, so
/// `setstate` on a table handed back by `initstate` or `setstate` resumes
/// the generator exactly where it was.
pub proof fn law_saved_state_round_trip(table: Seq<u32>, n: u32, i: u32, j: u32)
    requires
        n < 0x1_0000,
        i < 0x100,
        j < 0x100,
        table.len() >= 1,
    ensures
        word_degree(table.update(0, pack_state(n, i, j))[0]) == n,
        word_lag_i(table.update(0, pack_state(n, i, j))[0]) == i,
        word_lag_j(table.update(0, pack_state(n, i, j))[0]) == j,
        table.update(0, pack_state(n, i, j)).subrange(1, table.len() as int) == table.subrange(1, table.len() as int),
{
    lemma_pack(n, i, j);
    assert(table.update(0, pack_state(n, i, j)).subrange(1, table.len() as int) =~= table.subrange(1, table.len() as int));
}

/// Law: a table set aside by `initstate` or `setstate` (the table in use
/// with its bookkeeping word recorded) can be handed to `setstate`, and
/// doing so resumes the generator exactly where it was: same degree and
/// lags, same words of state.
pub proof fn law_setstate_resumes(s0: RandomState, saved: Seq<u32>, s1: RandomState)
    requires
        s0.wf(),
        saved == s0.table@.update(0, pack_state(s0.n, s0.i, s0.j)),
        s1.table@ == saved,
        s1.n == word_degree(saved[0]),
        s1.i == word_lag_i(saved[0]),
        s1.j == word_lag_j(saved[0]),
    ensures
        table_ok(saved),
        s1.n == s0.n,
        s1.i == s0.i,
        s1.j == s0.j,
        s1.table@.subrange(1, s1.table@.len() as int) == s0.table@.subrange(1, s0.table@.len() as int),
{
    law_saved_state_round_trip(s0.table@, s0.n, s0.i, s0.j);
}


/// The state of the 64-bit generator `k` steps on from `s`, each step
/// taking `x` to `6364136223846793005 * x + 1` modulo 2^64.
pub open spec fn lcg64_steps(s: nat, k: nat) -> nat
    decreases k,
{
    if k == 0 {
        s
    } else {
        (6364136223846793005nat * lcg64_steps(s, (k - 1) as nat) + 1) % 0x1_0000_0000_0000_0000nat
    }
}

/// The iterated generator agrees with `k` plain steps.
proof fn lemma_iter_is_steps(s: u64, k: nat)
    ensures
        lcg64_iter(s, k) as nat == lcg64_steps(s as nat, k),
    decreases k,
{
    if k > 0 {
        lemma_iter_is_steps(s, (k - 1) as nat);
    }
}

/// Law: seeding a table of degree above 0 fills word `k + 1` (for `k`
/// from 0, the first then made odd) with the upper 32 bits of the 64-bit
/// generator's state `k + 1` steps on from the seed.
pub proof fn law_seeded_words_are_high_halves(seed: u32, k: nat)
    ensures
        seeded_word(seed, k) as nat == lcg64_steps(seed as nat, k + 1) / 0x1_0000_0000nat,
{
    lemma_iter_is_steps(seed as u64, k + 1);
}

/// Law: `initstate` with a buffer of `n` bytes (at least 8) picks the
/// largest degree among 0, 7, 15, 31 and 63 whose table (the bookkeeping
/// word and one word per degree, 4 bytes each) fits in the buffer.
pub proof fn law_initstate_degree_fits(n: usize, d: u32)
    requires
        n >= 8,
    ensures
        degree_for(n) == 0 || degree_for(n) == 7 || degree_for(n) == 15 || degree_for(n) == 31 || degree_for(n) == 63,
        4 * (degree_for(n) + 1) <= n,
        (d == 0 || d == 7 || d == 15 || d == 31 || d == 63) && 4 * (d + 1) <= n ==> d <= degree_for(n),
{
}

} // verus!
