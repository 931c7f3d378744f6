//! The 48-bit linear congruential generator behind `drand48` and friends.
//!
//! The generator state is seven 16-bit words: a 48-bit seed (three words,
//! least significant first), a 48-bit multiplier (three words) and a 16-bit
//! addend. One step replaces the seed `x` by `(a * x + c) mod 2^48`.

use vstd::prelude::*;

verus! {

/// 2^48, the modulus of the generator.
pub open spec fn modulus48() -> nat {
    0x1_0000_0000_0000nat
}

/// The 48-bit value held little-endian in three 16-bit words.
pub open spec fn words48(w0: u16, w1: u16, w2: u16) -> nat {
    w0 as nat + w1 as nat * 0x1_0000 + w2 as nat * 0x1_0000_0000
}

/// The value one step of the generator produces from seed `x`,
/// multiplier `a` and addend `c`.
pub open spec fn lcg48(x: nat, a: nat, c: nat) -> nat {
    (a * x + c) % modulus48()
}

/// Performs one step of the generator on the seed `xi` with the parameters
/// `lc` (three multiplier words and the addend). The new seed is written
/// back to `xi` and returned as a 48-bit value.
pub fn rand48_step(xi: &mut [u16; 3], lc: &[u16; 4]) -> (r: u64)
    ensures
        r as nat == lcg48(
            words48(old(xi)@[0], old(xi)@[1], old(xi)@[2]),
            words48(lc@[0], lc@[1], lc@[2]),
            lc@[3] as nat,
        ),
        words48(final(xi)@[0], final(xi)@[1], final(xi)@[2]) == r as nat,
{
    let x0 = xi[0] as u64;
    let x1 = xi[1] as u64;
    let x2 = xi[2] as u64;
    let a0 = lc[0] as u64;
    let a1 = lc[1] as u64;
    let a2 = lc[2] as u64;
    let x = x0 | (x1 << 16) | (x2 << 32);
    let a = a0 | (a1 << 16) | (a2 << 32);
    let c = lc[3] as u64;
    let result = a.wrapping_mul(x).wrapping_add(c);
    let r = result & 0xffff_ffff_ffff;
    proof {
        assert(x == x0 + x1 * 0x1_0000 + x2 * 0x1_0000_0000) by (bit_vector)
            requires x0 < 0x10000, x1 < 0x10000, x2 < 0x10000, x == x0 | (x1 << 16) | (x2 << 32);
        assert(a == a0 + a1 * 0x1_0000 + a2 * 0x1_0000_0000) by (bit_vector)
            requires a0 < 0x10000, a1 < 0x10000, a2 < 0x10000, a == a0 | (a1 << 16) | (a2 << 32);
        assert(r == result % 0x1_0000_0000_0000) by (bit_vector)
            requires r == result & 0xffff_ffff_ffff;
        lemma_wrapped_step_mod48(a as int, x as int, c as int, result as int);
    }
    xi[0] = (result & 0xffff) as u16;
    xi[1] = ((result >> 16) & 0xffff) as u16;
    xi[2] = ((result >> 32) & 0xffff) as u16;
    proof {
        let y0 = (result & 0xffff) as u16;
        let y1 = ((result >> 16) & 0xffff) as u16;
        let y2 = ((result >> 32) & 0xffff) as u16;
        assert(y0 as u64 + (y1 as u64) * 0x1_0000 + (y2 as u64) * 0x1_0000_0000 == r) by (bit_vector)
            requires
                y0 == (result & 0xffff) as u16,
                y1 == ((result >> 16) & 0xffff) as u16,
                y2 == ((result >> 32) & 0xffff) as u16,
                r == result & 0xffff_ffff_ffff;
    }
    r
}


/// The multiplier the generator starts with, 0x5DEECE66D.
pub open spec fn default_multiplier() -> nat {
    0x5_DEEC_E66Dnat
}

/// The value of a 32-bit pattern read as a two's complement signed number.
pub open spec fn signed32(v: nat) -> int {
    if v >= 0x8000_0000 {
        v - 0x1_0000_0000
    } else {
        v as int
    }
}

/// The global state of the 48-bit generator: words 0..3 hold the seed,
/// words 3..6 the multiplier and word 6 the addend.
pub struct Rand48 {
    pub s: [u16; 7],
}

impl Rand48 {
    /// The current 48-bit seed.
    pub open spec fn seed(&self) -> nat {
        words48(self.s@[0], self.s@[1], self.s@[2])
    }

    /// The current 48-bit multiplier.
    pub open spec fn multiplier(&self) -> nat {
        words48(self.s@[3], self.s@[4], self.s@[5])
    }

    /// The current addend.
    pub open spec fn addend(&self) -> nat {
        self.s@[6] as nat
    }

    /// The value the next step produces from the seed `x`.
    pub open spec fn next_from(&self, x: nat) -> nat {
        lcg48(x, self.multiplier(), self.addend())
    }

    /// The initial state: seed 0, multiplier 0x5DEECE66D, addend 0xB.
    pub fn new() -> (r: Self)
        ensures
            r.seed() == 0,
            r.multiplier() == default_multiplier(),
            r.addend() == 0xB,
    {
        Rand48 { s: [0, 0, 0, 0xe66d, 0xdeec, 0x0005, 0x000b] }
    }

    /// The multiplier and addend as the step function takes them.
    fn params(&self) -> (lc: [u16; 4])
        ensures
            words48(lc@[0], lc@[1], lc@[2]) == self.multiplier(),
            lc@[3] as nat == self.addend(),
    {
        [self.s[3], self.s[4], self.s[5], self.s[6]]
    }

    /// Advances the caller's seed `xsubi` one step with this generator's
    /// parameters and returns the 48-bit result.
    fn step_with(&self, xsubi: &mut [u16; 3]) -> (r: u64)
        ensures
            r as nat == self.next_from(words48(old(xsubi)@[0], old(xsubi)@[1], old(xsubi)@[2])),
            words48(final(xsubi)@[0], final(xsubi)@[1], final(xsubi)@[2]) == r as nat,
    {
        let lc = self.params();
        rand48_step(xsubi, &lc)
    }

    /// Advances the global seed one step and returns the 48-bit result.
    fn step_global(&mut self) -> (r: u64)
        ensures
            r as nat == old(self).next_from(old(self).seed()),
            final(self).seed() == r as nat,
            final(self).multiplier() == old(self).multiplier(),
            final(self).addend() == old(self).addend(),
    {
        let mut xi = [self.s[0], self.s[1], self.s[2]];
        let r = self.step_with(&mut xi);
        self.s[0] = xi[0];
        self.s[1] = xi[1];
        self.s[2] = xi[2];
        r
    }

    /// `nrand48`: a non-negative value below 2^31 taken from the top 31 bits
    /// of the next step of the caller's seed.
    pub fn nrand48(&self, xsubi: &mut [u16; 3]) -> (r: i64)
        ensures
            r as int == self.next_from(words48(old(xsubi)@[0], old(xsubi)@[1], old(xsubi)@[2])) / 0x2_0000,
            0 <= r < 0x8000_0000,
            words48(final(xsubi)@[0], final(xsubi)@[1], final(xsubi)@[2])
                == self.next_from(words48(old(xsubi)@[0], old(xsubi)@[1], old(xsubi)@[2])),
    {
        let step = self.step_with(xsubi);
        proof { crate::bits::lemma_shr_u64(step); }
        (step >> 17) as i64
    }

    /// `lrand48`: `nrand48` on the global seed.
    pub fn lrand48(&mut self) -> (r: i64)
        ensures
            r as int == old(self).next_from(old(self).seed()) / 0x2_0000,
            0 <= r < 0x8000_0000,
            final(self).seed() == old(self).next_from(old(self).seed()),
            final(self).multiplier() == old(self).multiplier(),
            final(self).addend() == old(self).addend(),
    {
        let step = self.step_global();
        proof { crate::bits::lemma_shr_u64(step); }
        (step >> 17) as i64
    }

    /// The top 32 bits of a 48-bit step result, read as a signed number.
    fn top32_signed(step: u64) -> (r: i64)
        requires
            step < 0x1_0000_0000_0000,
        ensures
            r as int == signed32(step as nat / 0x1_0000),
    {
        let hi = step >> 16;
        proof { crate::bits::lemma_shr_u64(step); }
        if hi >= 0x8000_0000 {
            hi as i64 - 0x1_0000_0000
        } else {
            hi as i64
        }
    }

    /// `jrand48`: the top 32 bits of the next step of the caller's seed, as
    /// a signed value in [-2^31, 2^31).
    pub fn jrand48(&self, xsubi: &mut [u16; 3]) -> (r: i64)
        ensures
            r as int == signed32(self.next_from(words48(old(xsubi)@[0], old(xsubi)@[1], old(xsubi)@[2])) / 0x1_0000),
            -0x8000_0000 <= r < 0x8000_0000,
            words48(final(xsubi)@[0], final(xsubi)@[1], final(xsubi)@[2])
                == self.next_from(words48(old(xsubi)@[0], old(xsubi)@[1], old(xsubi)@[2])),
    {
        let step = self.step_with(xsubi);
        Self::top32_signed(step)
    }

    /// `mrand48`: `jrand48` on the global seed.
    pub fn mrand48(&mut self) -> (r: i64)
        ensures
            r as int == signed32(old(self).next_from(old(self).seed()) / 0x1_0000),
            -0x8000_0000 <= r < 0x8000_0000,
            final(self).seed() == old(self).next_from(old(self).seed()),
            final(self).multiplier() == old(self).multiplier(),
            final(self).addend() == old(self).addend(),
    {
        let step = self.step_global();
        Self::top32_signed(step)
    }

    /// The bit pattern of the double `erand48` returns before 1.0 is taken
    /// off: exponent of 1.0 with the 48-bit step result in the top of the
    /// mantissa, i.e. the double 1 + step / 2^48.
    pub fn erand48_bits(&self, xsubi: &mut [u16; 3]) -> (r: u64)
        ensures
            r as nat == 0x3ff0_0000_0000_0000 + 16 * self.next_from(
                words48(old(xsubi)@[0], old(xsubi)@[1], old(xsubi)@[2])),
            words48(final(xsubi)@[0], final(xsubi)@[1], final(xsubi)@[2])
                == self.next_from(words48(old(xsubi)@[0], old(xsubi)@[1], old(xsubi)@[2])),
    {
        let step = self.step_with(xsubi);
        assert(0x3ff0_0000_0000_0000u64 | (step << 4) == 0x3ff0_0000_0000_0000u64 + step * 16) by (bit_vector)
            requires step < 0x1_0000_0000_0000u64;
        0x3ff0_0000_0000_0000u64 | (step << 4)
    }

    /// The bit pattern behind `drand48`: `erand48_bits` on the global seed.
    pub fn drand48_bits(&mut self) -> (r: u64)
        ensures
            r as nat == 0x3ff0_0000_0000_0000 + 16 * old(self).next_from(old(self).seed()),
            final(self).seed() == old(self).next_from(old(self).seed()),
            final(self).multiplier() == old(self).multiplier(),
            final(self).addend() == old(self).addend(),
    {
        let step = self.step_global();
        assert(0x3ff0_0000_0000_0000u64 | (step << 4) == 0x3ff0_0000_0000_0000u64 + step * 16) by (bit_vector)
            requires step < 0x1_0000_0000_0000u64;
        0x3ff0_0000_0000_0000u64 | (step << 4)
    }

    /// `lcong48`: replaces seed, multiplier and addend all at once.
    pub fn lcong48(&mut self, p: &[u16; 7])
        ensures
            final(self).s@ == p@,
    {
        let mut k: usize = 0;
        while k < 7
            invariant
                k <= 7,
                forall|t: int| 0 <= t < k ==> self.s@[t] == p@[t],
            decreases 7 - k,
        {
            self.s[k] = p[k];
            k = k + 1;
        }
        assert(self.s@ =~= p@);
    }

    /// `seed48`: replaces the seed with `seed16v` and returns the old seed;
    /// multiplier and addend stay as they are.
    pub fn seed48(&mut self, seed16v: &[u16; 3]) -> (old_seed: [u16; 3])
        ensures
            old_seed@ == old(self).s@.subrange(0, 3),
            final(self).s@ == seed16v@ + old(self).s@.subrange(3, 7),
    {
        let old_seed = [self.s[0], self.s[1], self.s[2]];
        self.s[0] = seed16v[0];
        self.s[1] = seed16v[1];
        self.s[2] = seed16v[2];
        assert(old_seed@ =~= old(self).s@.subrange(0, 3));
        assert(self.s@ =~= seed16v@ + old(self).s@.subrange(3, 7));
        old_seed
    }

    /// `srand48`: sets the seed to `0x330E` in its low 16 bits and the low
    /// 32 bits of `seedval` above; multiplier and addend stay as they are.
    pub fn srand48(&mut self, seedval: i64)
        ensures
            final(self).seed() == 0x330e + (seedval as u32 as nat) * 0x1_0000,
            final(self).s@.subrange(3, 7) == old(self).s@.subrange(3, 7),
    {
        let v = seedval as u64;
        let lo = (v & 0xffff) as u16;
        let hi = ((v >> 16) & 0xffff) as u16;
        self.s[0] = 0x330e;
        self.s[1] = lo;
        self.s[2] = hi;
        assert(lo as nat + hi as nat * 0x1_0000 == v as u32 as nat) by (bit_vector)
            requires lo == (v & 0xffff) as u16, hi == ((v >> 16) & 0xffff) as u16;
        assert(v as u32 == seedval as u32) by (bit_vector) requires v == seedval as u64;
        assert(self.s@.subrange(3, 7) =~= old(self).s@.subrange(3, 7));
    }
}

/// Law: `seed48` called with the seed an earlier `seed48` returned puts the
/// whole generator state back as it was before that earlier call.
pub proof fn law_seed48_restores(before: Seq<u16>, new_seed: Seq<u16>)
    requires
        before.len() == 7,
        new_seed.len() == 3,
    ensures
        ({
            let after = new_seed + before.subrange(3, 7);
            let returned = before.subrange(0, 3);
            returned + after.subrange(3, 7) == before
        }),
{
    let after = new_seed + before.subrange(3, 7);
    let returned = before.subrange(0, 3);
    assert(after.subrange(3, 7) =~= before.subrange(3, 7));
    assert(returned + after.subrange(3, 7) =~= before);
}

/// Arithmetic wrapped at 2^64 agrees with exact arithmetic modulo 2^48.
proof fn lemma_wrapped_step_mod48(a: int, x: int, c: int, result: int)
    requires
        0 <= a < 0x1_0000_0000_0000,
        0 <= x < 0x1_0000_0000_0000,
        0 <= c < 0x10000,
        result == (if (a * x) % 0x1_0000_0000_0000_0000 + c > u64::MAX {
            (a * x) % 0x1_0000_0000_0000_0000 + c - 0x1_0000_0000_0000_0000
        } else {
            (a * x) % 0x1_0000_0000_0000_0000 + c
        }),
    ensures
        result % 0x1_0000_0000_0000 == (a * x + c) % 0x1_0000_0000_0000,
{
    let p = a * x;
    assert(a * x >= 0) by (nonlinear_arith) requires a >= 0, x >= 0;
    let q = p / 0x1_0000_0000_0000_0000;
    vstd::arithmetic::div_mod::lemma_fundamental_div_mod(p, 0x1_0000_0000_0000_0000);
    let k: int = if (a * x) % 0x1_0000_0000_0000_0000 + c > u64::MAX { 1 } else { 0 };
    let m = q + k;
    assert(result == p + c - m * 0x1_0000_0000_0000_0000);
    vstd::arithmetic::div_mod::lemma_mod_multiples_vanish(-m * 0x1_0000, p + c, 0x1_0000_0000_0000);
    assert(0x1_0000_0000_0000 * (-m * 0x1_0000) + (p + c) == result);
}


/// Law: the generator is the POSIX `drand48` family's: a fresh state
/// multiplies by 0x5DEECE66D (25214903917) and adds 11, modulo 2^48.
pub proof fn law_rand48_parameters(x: nat)
    ensures
        default_multiplier() == 25214903917,
        modulus48() == 281474976710656,
        lcg48(x, default_multiplier(), 11) == (25214903917 * x + 11) % 281474976710656,
{
}

} // verus!
