//! `rand`/`srand` (a 64-bit linear congruential generator) and the
//! reentrant `rand_r` (a 32-bit generator with a tempering step).

use vstd::prelude::*;

verus! {

/// The largest value `rand` and `rand_r` return.
pub const RAND_MAX: i32 = 0x7fff_ffff;

/// The multiplier of the 64-bit generator behind `rand`.
pub const LCG64_MULT: u64 = 6364136223846793005;

/// One step of the 64-bit generator: `(6364136223846793005 * x + 1) mod 2^64`.
pub open spec fn lcg64_spec(x: u64) -> u64 {
    ((LCG64_MULT as nat * x as nat + 1) % 0x1_0000_0000_0000_0000nat) as u64
}

/// One step of the 32-bit generator behind `rand_r`:
/// `(1103515245 * x + 12345) mod 2^32`.
pub open spec fn lcg32_spec(x: u32) -> u32 {
    ((1103515245nat * x as nat + 12345) % 0x1_0000_0000nat) as u32
}

/// The tempering transform applied to the output of `rand_r`.
pub open spec fn temper_spec(x: u32) -> u32 {
    let t1 = x ^ (x >> 11u32);
    let t2 = t1 ^ ((t1 << 7u32) & 0x9D2C_5680u32);
    let t3 = t2 ^ ((t2 << 15u32) & 0xEFC6_0000u32);
    t3 ^ (t3 >> 18u32)
}

/// Applies the tempering transform: two xor-shifts to the right and two
/// masked xor-shifts to the left.
pub fn temper(x: u32) -> (r: u32)
    ensures
        r == temper_spec(x),
{
    let mut t = x;
    t ^= t >> 11;
    t ^= (t << 7) & 0x9D2C5680;
    t ^= (t << 15) & 0xEFC60000;
    t ^= t >> 18;
    t
}

/// Wrapping multiply-add on 64 bits equals the exact value reduced mod 2^64.
proof fn lemma_wrap_mul_add_u64(a: u64, x: u64, c: u64)
    ensures
        vstd::wrapping::u64_specs::wrapping_add(vstd::wrapping::u64_specs::wrapping_mul(a, x), c)
            == ((a as nat * x as nat + c as nat) % 0x1_0000_0000_0000_0000nat) as u64,
{
    let m = 0x1_0000_0000_0000_0000int;
    let p = a as int * x as int;
    assert(a as int * x as int >= 0) by (nonlinear_arith) requires a >= 0, x >= 0;
    vstd::arithmetic::div_mod::lemma_fundamental_div_mod(p, m);
    vstd::arithmetic::div_mod::lemma_add_mod_noop(p, c as int, m);
    vstd::arithmetic::div_mod::lemma_small_mod(c as nat, m as nat);
    let w = p % m;
    assert(0 <= w < m);
    if w + c > u64::MAX {
        vstd::arithmetic::div_mod::lemma_small_mod((w + c - m) as nat, m as nat);
        vstd::arithmetic::div_mod::lemma_mod_sub_multiples_vanish(w + c, m);
    } else {
        vstd::arithmetic::div_mod::lemma_small_mod((w + c) as nat, m as nat);
    }
}

/// Wrapping multiply-add on 32 bits equals the exact value reduced mod 2^32.
proof fn lemma_wrap_mul_add_u32(a: u32, x: u32, c: u32)
    ensures
        vstd::wrapping::u32_specs::wrapping_add(vstd::wrapping::u32_specs::wrapping_mul(a, x), c)
            == ((a as nat * x as nat + c as nat) % 0x1_0000_0000nat) as u32,
{
    let m = 0x1_0000_0000int;
    let p = a as int * x as int;
    assert(a as int * x as int >= 0) by (nonlinear_arith) requires a >= 0, x >= 0;
    vstd::arithmetic::div_mod::lemma_fundamental_div_mod(p, m);
    vstd::arithmetic::div_mod::lemma_add_mod_noop(p, c as int, m);
    vstd::arithmetic::div_mod::lemma_small_mod(c as nat, m as nat);
    let w = p % m;
    assert(0 <= w < m);
    if w + c > u32::MAX {
        vstd::arithmetic::div_mod::lemma_small_mod((w + c - m) as nat, m as nat);
        vstd::arithmetic::div_mod::lemma_mod_sub_multiples_vanish(w + c, m);
    } else {
        vstd::arithmetic::div_mod::lemma_small_mod((w + c) as nat, m as nat);
    }
}

/// One step of the 64-bit generator.
pub fn lcg64(x: u64) -> (r: u64)
    ensures
        r == lcg64_spec(x),
{
    proof {
        lemma_wrap_mul_add_u64(LCG64_MULT, x, 1);
    }
    LCG64_MULT.wrapping_mul(x).wrapping_add(1)
}

/// One step of the 32-bit generator.
pub fn lcg32(x: u32) -> (r: u32)
    ensures
        r == lcg32_spec(x),
{
    proof {
        lemma_wrap_mul_add_u32(1103515245, x, 12345);
    }
    1103515245u32.wrapping_mul(x).wrapping_add(12345)
}

/// The state of `rand`: one 64-bit seed.
pub struct RandState {
    pub seed: u64,
}

impl RandState {
    /// The state before any call of `srand`: seed 0.
    pub fn new() -> (r: Self)
        ensures
            r.seed == 0,
    {
        RandState { seed: 0 }
    }

    /// `rand`: advances the seed one step and returns its top 31 bits.
    pub fn rand(&mut self) -> (r: i32)
        ensures
            final(self).seed == lcg64_spec(old(self).seed),
            r as int == final(self).seed as int / 0x2_0000_0000,
            0 <= r <= RAND_MAX,
    {
        self.seed = lcg64(self.seed);
        let s = self.seed;
        proof { crate::bits::lemma_shr_u64(s); }
        (self.seed >> 33) as i32
    }

    /// The seed `srand(seed)` leaves: `seed - 1` in 32 bits, widened (so
    /// 0 gives `0xffff_ffff`).
    pub open spec fn srand_seed(seed: u32) -> u64 {
        if seed == 0 { 0xffff_ffffu64 } else { (seed - 1) as u64 }
    }

    /// `srand`: sets the seed to `seed - 1`, computed in 32 bits, so that
    /// the next `rand` starts from there.
    pub fn srand(&mut self, seed: u32)
        ensures
            final(self).seed == Self::srand_seed(seed),
    {
        self.seed = seed.wrapping_sub(1) as u64;
    }
}

/// `rand_r`: advances the caller's 32-bit seed one step of the 32-bit
/// generator and returns the tempered result shifted right by one bit.
pub fn rand_r(seed: &mut u32) -> (r: i32)
    ensures
        *final(seed) == lcg32_spec(*old(seed)),
        r as int == temper_spec(*final(seed)) as int / 2,
        0 <= r <= RAND_MAX,
{
    let new_seed = lcg32(*seed);
    *seed = new_seed;
    let t = temper(new_seed);
    proof { crate::bits::lemma_fields_u32(t); }
    (t >> 1) as i32
}

/// Law: `rand_r` tempers its new seed the way the Mersenne Twister does
/// (MT19937): xor with the value shifted right by 11; xor with the value
/// shifted left by 7 masked with 0x9D2C5680; xor with the value shifted
/// left by 15 masked with 0xEFC60000; xor with the value shifted right by
/// 18. Its result is that tempered value halved, the new seed being one
/// step `1103515245 * seed + 12345 mod 2^32`.
pub proof fn law_rand_r_tempering(seed: u32, x: u32)
    ensures
        temper_spec(x) == ({
            let a = x ^ (x >> 11u32);
            let b = a ^ ((a << 7u32) & 0x9D2C_5680u32);
            let c = b ^ ((b << 15u32) & 0xEFC6_0000u32);
            c ^ (c >> 18u32)
        }),
        lcg32_spec(seed) as nat == (1103515245nat * seed as nat + 12345) % 0x1_0000_0000nat,
{
}

/// Seeding with 1 gives the state `rand` starts from before any seeding,
/// so both produce the same sequence.
pub proof fn law_srand_one_is_initial()
    ensures
        RandState::srand_seed(1) == 0,
{
}

} // verus!
