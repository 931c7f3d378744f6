use lib::rand48::{rand48_step, Rand48};
use lib::rand::{RandState, rand_r, temper, lcg64, lcg32, RAND_MAX};
use lib::random::{RandomState, lcg31};

const DEFAULT_LC: [u16; 4] = [0xe66d, 0xdeec, 0x0005, 0x000b];

#[test]
fn test_step_zero_seed() {
    let mut xi = [0u16; 3];
    let result = rand48_step(&mut xi, &DEFAULT_LC);
    assert_eq!(result, 0x0000_0000_0000_000b);
    assert_eq!(xi[0], 0x000b);
    assert_eq!(xi[1], 0x0000);
    assert_eq!(xi[2], 0x0000);
}

#[test]
fn test_step_known_input() {
    let mut xi = [0x9abcu16, 0x5678, 0x1234];
    let result = rand48_step(&mut xi, &DEFAULT_LC);
    assert!(result != 0);
    assert_eq!(result >> 48, 0);
    let expected = 0x5deece66du64.wrapping_mul(0x1234_5678_9abc).wrapping_add(0xb) & 0xffff_ffff_ffff;
    assert_eq!(result, expected);
}

#[test]
fn test_step_updates_xi() {
    let mut xi = [0xffffu16; 3];
    let result = rand48_step(&mut xi, &DEFAULT_LC);
    assert_eq!(xi[0], (result & 0xffff) as u16);
    assert_eq!(xi[1], ((result >> 16) & 0xffff) as u16);
    assert_eq!(xi[2], ((result >> 32) & 0xffff) as u16);
}

#[test]
fn test_step_custom_lc() {
    let mut xi = [1u16, 0, 0];
    let lc = [1u16, 0, 0, 1];
    let result = rand48_step(&mut xi, &lc);
    assert_eq!(result, 2);
}

#[test]
fn test_step_deterministic() {
    let mut xi_a = [0x1234u16, 0x5678, 0x9abc];
    let r1 = rand48_step(&mut xi_a, &DEFAULT_LC);
    let mut xi_b = [0x1234u16, 0x5678, 0x9abc];
    let r2 = rand48_step(&mut xi_b, &DEFAULT_LC);
    assert_eq!(r1, r2);
    assert_eq!(xi_a, xi_b);
}

#[test]
fn test_step_large_seed() {
    let mut xi = [0xffffu16, 0xffff, 0xffff];
    let result = rand48_step(&mut xi, &DEFAULT_LC);
    assert_eq!(result >> 48, 0);
}

#[test]
fn test_step_zero_adder() {
    let mut xi = [0x1234u16, 0x5678, 0x9abc];
    let lc = [0xe66d, 0xdeec, 0x0005, 0x0000];
    let result = rand48_step(&mut xi, &lc);
    let a: u64 = 0x5deece66d;
    let x: u64 = 0x9abc56781234;
    let expected = a.wrapping_mul(x) & 0xffff_ffff_ffff;
    assert_eq!(result, expected);
}

#[test]
fn test_initial_values() {
    let g = Rand48::new();
    assert_eq!(g.s, [0, 0, 0, 0xe66d, 0xdeec, 0x5, 0xb]);
    let m: u64 = (g.s[3] as u64) | ((g.s[4] as u64) << 16) | ((g.s[5] as u64) << 32);
    assert_eq!(m, 0x5DEECE66D);
    assert_eq!(g.s[6], 0xB);
}

#[test]
fn seed48_returns_the_previous_seed_and_restores() {
    let mut g = Rand48::new();
    let old = g.seed48(&[0x1234, 0x5678, 0x9abc]);
    assert_eq!(old, [0, 0, 0]);
    let a = g.lrand48();
    let back = g.seed48(&[0x1234, 0x5678, 0x9abc]);
    assert_ne!(back, [0x1234, 0x5678, 0x9abc]);
    let b = g.lrand48();
    assert_eq!(a, b);
}

#[test]
fn seed48_keeps_the_multiplier() {
    let mut g = Rand48::new();
    g.lcong48(&[1, 2, 3, 4, 5, 6, 7]);
    g.seed48(&[9, 9, 9]);
    assert_eq!(g.s, [9, 9, 9, 4, 5, 6, 7]);
}

#[test]
fn srand48_sets_seed_from_high_bits() {
    let mut g = Rand48::new();
    g.srand48(0x1234_5678);
    assert_eq!(g.s[0], 0x330e);
    assert_eq!(g.s[1], 0x5678);
    assert_eq!(g.s[2], 0x1234);
}

#[test]
fn lrand48_is_top_31_bits_of_the_step() {
    let mut g = Rand48::new();
    let r = g.lrand48();
    assert_eq!(r, (0xbu64 >> 17) as i64);
    let mut xi = [0x000bu16, 0, 0];
    let next = rand48_step(&mut xi, &DEFAULT_LC);
    assert_eq!(g.lrand48(), (next >> 17) as i64);
}

#[test]
fn mrand48_is_signed_top_32_bits() {
    let mut g = Rand48::new();
    g.seed48(&[0xffff, 0xffff, 0xffff]);
    let mut xi = [0xffffu16; 3];
    let next = rand48_step(&mut xi, &DEFAULT_LC);
    assert_eq!(g.mrand48(), ((next >> 16) as u32 as i32) as i64);
}

#[test]
fn nrand48_uses_the_callers_seed() {
    let g = Rand48::new();
    let mut xs = [1u16, 2, 3];
    let r = g.nrand48(&mut xs);
    let mut xi = [1u16, 2, 3];
    let next = rand48_step(&mut xi, &DEFAULT_LC);
    assert_eq!(r, (next >> 17) as i64);
    assert_eq!(xs, xi);
}

#[test]
fn rand_after_srand_one_matches_initial() {
    let mut a = RandState::new();
    let mut b = RandState::new();
    b.srand(1);
    for _ in 0..5 {
        assert_eq!(a.rand(), b.rand());
    }
}

#[test]
fn rand_first_value() {
    let mut a = RandState::new();
    let r = a.rand();
    assert_eq!(r, 0);
    assert_eq!(a.seed, 1);
    let r2 = a.rand();
    assert_eq!(r2 as u64, 6364136223846793006u64 >> 33);
    assert!(r2 <= RAND_MAX);
}

#[test]
fn lcg_steps_have_exact_values() {
    assert_eq!(lcg64(0), 1);
    assert_eq!(lcg64(1), 6364136223846793006);
    assert_eq!(lcg32(0), 12345);
    assert_eq!(lcg32(1), 1103527590);
    assert_eq!(lcg31(1), 1103527590 & 0x7fff_ffff);
}

#[test]
fn temper_exact_value() {
    let mut x: u32 = 1;
    x ^= x >> 11;
    x ^= (x << 7) & 0x9D2C5680;
    x ^= (x << 15) & 0xEFC60000;
    x ^= x >> 18;
    assert_eq!(temper(1), x);
}

#[test]
fn rand_r_advances_the_seed() {
    let mut s: u32 = 0;
    let r = rand_r(&mut s);
    assert_eq!(s, 12345);
    assert_eq!(r as u32, temper(12345) >> 1);
}

#[test]
fn random_is_deterministic_after_srandom() {
    let mut a = RandomState::new();
    let mut b = RandomState::new();
    a.srandom(42);
    b.srandom(42);
    for _ in 0..10 {
        let x = a.random();
        assert_eq!(x, b.random());
        assert!(x >= 0 && x <= 0x7fff_ffff);
    }
}

#[test]
fn setstate_round_trip() {
    let mut a = RandomState::new();
    a.srandom(7);
    let first = a.random();
    let mut b = RandomState::new();
    b.srandom(7);
    let saved = b.setstate(vec![0u32; 32]);
    let _ = b.setstate(saved);
    assert_eq!(b.random(), first);
}

#[test]
fn initstate_rejects_small_state() {
    let mut a = RandomState::new();
    let r = a.initstate(1, vec![0u32; 1], 4);
    assert!(r.is_err());
}

#[test]
fn srand_zero_wraps_in_32_bits() {
    let mut r = lib::rand::RandState::new();
    r.srand(0);
    assert_eq!(r.seed, 0xffff_ffff);
    assert_eq!(r.rand(), 2049033599);
}
