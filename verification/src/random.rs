//! Deterministic, seedable pseudo-random number generation with the
//! xoshiro256** generator, seeded through SplitMix64.
//!
//! The generator state that a program shares between calls is held by the
//! caller in an `Option<Xoshiro256>` slot; an empty slot stands for a
//! generator that has not been seeded yet.

use vstd::prelude::*;
use vstd::wrapping::u64_specs::{wrapping_add, wrapping_mul};

verus! {

/// Increment of the SplitMix64 sequence.
pub const SPLITMIX_GAMMA: u64 = 0x9E37_79B9_7F4A_7C15;

/// Seed used when numbers are drawn before any explicit seeding.
pub const DEFAULT_SEED: u64 = 0x9E37_79B9_7F4A_7C15;

/// Rotation of the 64 bits of `x` by `k` places to the left.
pub open spec fn rotl(x: u64, k: u32) -> u64 {
    (x << k) | (x >> ((64 - k) as u32))
}

/// SplitMix64 output function applied to an advanced state.
pub open spec fn splitmix_mix(state: u64) -> u64 {
    let z1 = wrapping_mul(state ^ (state >> 30u32), 0xBF58_476D_1CE4_E5B9);
    let z2 = wrapping_mul(z1 ^ (z1 >> 27u32), 0x94D0_49BB_1331_11EB);
    z2 ^ (z2 >> 31u32)
}

/// The SplitMix64 state after `i` steps from `seed`.
pub open spec fn splitmix_state(seed: u64, i: nat) -> u64
    decreases i,
{
    if i == 0 {
        seed
    } else {
        wrapping_add(splitmix_state(seed, (i - 1) as nat), SPLITMIX_GAMMA)
    }
}

/// The xoshiro256** state obtained from a seed: the first four SplitMix64
/// outputs.
pub open spec fn xoshiro_seeded(seed: u64) -> (u64, u64, u64, u64) {
    (
        splitmix_mix(splitmix_state(seed, 1)),
        splitmix_mix(splitmix_state(seed, 2)),
        splitmix_mix(splitmix_state(seed, 3)),
        splitmix_mix(splitmix_state(seed, 4)),
    )
}

/// The number xoshiro256** outputs in a given state.
pub open spec fn xoshiro_output(s: (u64, u64, u64, u64)) -> u64 {
    wrapping_mul(rotl(wrapping_mul(s.1, 5), 7), 9)
}

/// The xoshiro256** state that follows a given state.
pub open spec fn xoshiro_step(s: (u64, u64, u64, u64)) -> (u64, u64, u64, u64) {
    let t = s.1 << 17u32;
    let s2 = s.2 ^ s.0;
    let s3 = s.3 ^ s.1;
    let s1 = s.1 ^ s2;
    let s0 = s.0 ^ s3;
    (s0, s1, s2 ^ t, rotl(s3, 45))
}

/// The generator state after `n` draws.
pub open spec fn xoshiro_after(s: (u64, u64, u64, u64), n: nat) -> (u64, u64, u64, u64)
    decreases n,
{
    if n == 0 {
        s
    } else {
        xoshiro_step(xoshiro_after(s, (n - 1) as nat))
    }
}

/// The first `n` numbers drawn from a state.
pub open spec fn xoshiro_draws(s: (u64, u64, u64, u64), n: nat) -> Seq<u64> {
    Seq::new(n, |i: int| xoshiro_output(xoshiro_after(s, i as nat)))
}

/// The integer in `[low, high)` that a draw `x` maps to; `low` when the
/// range is empty.
pub open spec fn int_in_range(low: i64, high: i64, x: u64) -> int {
    if high > low {
        low + (x as int % (high - low))
    } else {
        low as int
    }
}

/// A xoshiro256** generator.
pub struct Xoshiro256 {
    s0: u64,
    s1: u64,
    s2: u64,
    s3: u64,
}

impl View for Xoshiro256 {
    type V = (u64, u64, u64, u64);

    closed spec fn view(&self) -> (u64, u64, u64, u64) {
        (self.s0, self.s1, self.s2, self.s3)
    }
}

/// Rotation of the 64 bits of `x` by `k` places to the left.
fn rotate_left(x: u64, k: u32) -> (r: u64)
    requires
        0 < k < 64,
    ensures
        r == rotl(x, k),
{
    (x << k) | (x >> (64 - k))
}

/// Advance a SplitMix64 state and return its output.
fn splitmix_next(state: &mut u64) -> (out: u64)
    ensures
        *final(state) == wrapping_add(*old(state), SPLITMIX_GAMMA),
        out == splitmix_mix(*final(state)),
{
    *state = state.wrapping_add(SPLITMIX_GAMMA);
    let mut z: u64 = *state;
    z = (z ^ (z >> 30)).wrapping_mul(0xBF58_476D_1CE4_E5B9);
    z = (z ^ (z >> 27)).wrapping_mul(0x94D0_49BB_1331_11EB);
    z ^ (z >> 31)
}

impl Xoshiro256 {
    /// A generator seeded with `seed` (SplitMix64 spreads the seed into
    /// the state).
    pub fn new(seed: u64) -> (g: Self)
        ensures
            g@ == xoshiro_seeded(seed),
    {
        let mut state: u64 = seed;
        assert(splitmix_state(seed, 0) == seed);
        let a = splitmix_next(&mut state);
        assert(state == splitmix_state(seed, 1));
        let b = splitmix_next(&mut state);
        assert(state == splitmix_state(seed, 2));
        let c = splitmix_next(&mut state);
        assert(state == splitmix_state(seed, 3));
        let d = splitmix_next(&mut state);
        assert(state == splitmix_state(seed, 4));
        Xoshiro256 { s0: a, s1: b, s2: c, s3: d }
    }

    /// Draw the next 64-bit number.
    pub fn next_u64(&mut self) -> (result: u64)
        ensures
            result == xoshiro_output(old(self)@),
            final(self)@ == xoshiro_step(old(self)@),
    {
        let result = rotate_left(self.s1.wrapping_mul(5), 7).wrapping_mul(9);
        let t: u64 = self.s1 << 17;
        self.s2 = self.s2 ^ self.s0;
        self.s3 = self.s3 ^ self.s1;
        self.s1 = self.s1 ^ self.s2;
        self.s0 = self.s0 ^ self.s3;
        self.s2 = self.s2 ^ t;
        self.s3 = rotate_left(self.s3, 45);
        result
    }
}

/// Seed the generator held in `slot`.
pub fn seed(slot: &mut Option<Xoshiro256>, seed: u64)
    ensures
        *final(slot) matches Some(g) && g@ == xoshiro_seeded(seed),
{
    *slot = Some(Xoshiro256::new(seed));
}

/// The state the generator in `slot` draws from: its own, or the default
/// seeding when the slot is empty.
pub open spec fn slot_state(slot: Option<Xoshiro256>) -> (u64, u64, u64, u64) {
    match slot {
        Some(g) => g@,
        None => xoshiro_seeded(DEFAULT_SEED),
    }
}

/// Draw the next 64-bit number from the generator in `slot`, seeding it with
/// the default seed first when the slot is empty.
pub fn with_rng(slot: &mut Option<Xoshiro256>) -> (x: u64)
    ensures
        x == xoshiro_output(slot_state(*old(slot))),
        *final(slot) matches Some(g) && g@ == xoshiro_step(slot_state(*old(slot))),
{
    let mut g = match slot.take() {
        Some(g) => g,
        None => Xoshiro256::new(DEFAULT_SEED),
    };
    let x = g.next_u64();
    *slot = Some(g);
    x
}

/// Integer in `[low, high)` drawn from the generator in `slot` (`low` itself
/// when the range is empty).
pub fn random_int(slot: &mut Option<Xoshiro256>, low: i64, high: i64) -> (r: i64)
    requires
        i64::MIN <= high - low <= i64::MAX,
    ensures
        r == int_in_range(low, high, xoshiro_output(slot_state(*old(slot)))),
        high > low ==> low <= r < high,
        high <= low ==> r == low,
        *final(slot) matches Some(g) && g@ == xoshiro_step(slot_state(*old(slot))),
{
    let diff: i64 = high - low;
    let span: u64 = if diff > 1 {
        diff as u64
    } else {
        1
    };
    let x = with_rng(slot);
    let k: u64 = x % span;
    assert(k < span);
    let r: i64 = low + k as i64;
    r
}

/// Shape requested for a batch of random numbers: the given one, or a single
/// element.
pub fn shape_of(size: Option<Vec<usize>>) -> (shape: Vec<usize>)
    ensures
        size matches Some(s) ==> shape@ == s@,
        size is None ==> shape@ == seq![1usize],
{
    match size {
        Some(s) => s,
        None => {
            let v: Vec<usize> = vec![1];
            v
        },
    }
}

/// Shape of a single random number.
pub fn shape_of_scalar() -> (shape: Vec<usize>)
    ensures
        shape@ == seq![1usize],
{
    vec![1]
}

/// The `i`-th SplitMix64 state from `seed`: `seed + i * gamma`, wrapped
/// modulo 2^64.
proof fn lemma_splitmix_state(seed: u64, i: nat)
    ensures
        splitmix_state(seed, i) as int == (seed as int + i * (SPLITMIX_GAMMA as int))
            % 0x1_0000_0000_0000_0000,
    decreases i,
{
    let m: int = 0x1_0000_0000_0000_0000;
    let g = SPLITMIX_GAMMA as int;
    if i == 0 {
        vstd::arithmetic::div_mod::lemma_small_mod(seed as nat, m as nat);
    } else {
        lemma_splitmix_state(seed, (i - 1) as nat);
        let a = seed as int + (i - 1) * g;
        let x = splitmix_state(seed, (i - 1) as nat) as int;
        assert(a >= 0) by (nonlinear_arith)
            requires
                a == seed as int + (i - 1) * g,
                seed >= 0,
                i >= 1,
                g >= 0,
        ;
        vstd::arithmetic::div_mod::lemma_fundamental_div_mod(a, m);
        let q = a / m;
        assert(a == m * q + x);
        assert(seed as int + i * g == a + g) by (nonlinear_arith)
            requires
                a == seed as int + (i - 1) * g,
        ;
        if x + g < m {
            vstd::arithmetic::div_mod::lemma_fundamental_div_mod_converse(a + g, m, q, x + g);
        } else {
            assert(a + g == m * (q + 1) + (x + g - m)) by (nonlinear_arith)
                requires
                    a == m * q + x,
            ;
            vstd::arithmetic::div_mod::lemma_fundamental_div_mod_converse(
                a + g,
                m,
                q + 1,
                x + g - m,
            );
        }
    }
}

/// Seeding spreads the given seed itself, whatever its value (0 included):
/// the four state words are SplitMix64's outputs for `seed + gamma`,
/// `seed + 2 gamma`, `seed + 3 gamma` and `seed + 4 gamma`, modulo 2^64.
pub proof fn lemma_seeded_state(seed: u64)
    ensures
        xoshiro_seeded(seed) == (
            splitmix_mix(((seed as int + SPLITMIX_GAMMA as int) % 0x1_0000_0000_0000_0000) as u64),
            splitmix_mix(
                ((seed as int + 2 * (SPLITMIX_GAMMA as int)) % 0x1_0000_0000_0000_0000) as u64,
            ),
            splitmix_mix(
                ((seed as int + 3 * (SPLITMIX_GAMMA as int)) % 0x1_0000_0000_0000_0000) as u64,
            ),
            splitmix_mix(
                ((seed as int + 4 * (SPLITMIX_GAMMA as int)) % 0x1_0000_0000_0000_0000) as u64,
            ),
        ),
{
    lemma_splitmix_state(seed, 1);
    lemma_splitmix_state(seed, 2);
    lemma_splitmix_state(seed, 3);
    lemma_splitmix_state(seed, 4);
}

/// Drawing one number then `n` more is drawing `n + 1` numbers.
pub proof fn lemma_draws_step(s: (u64, u64, u64, u64), n: nat)
    ensures
        xoshiro_draws(s, n + 1) == seq![xoshiro_output(s)] + xoshiro_draws(xoshiro_step(s), n),
{
    assert forall|i: nat| #[trigger] xoshiro_after(xoshiro_step(s), i) == xoshiro_after(s, i + 1) by {
        lemma_after_step(s, i);
    }
    assert(xoshiro_draws(s, n + 1) =~= seq![xoshiro_output(s)] + xoshiro_draws(xoshiro_step(s), n));
}

proof fn lemma_after_step(s: (u64, u64, u64, u64), i: nat)
    ensures
        xoshiro_after(xoshiro_step(s), i) == xoshiro_after(s, i + 1),
    decreases i,
{
    assert(xoshiro_after(s, 0) == s);
    if i > 0 {
        lemma_after_step(s, (i - 1) as nat);
        assert(xoshiro_after(xoshiro_step(s), i) == xoshiro_step(
            xoshiro_after(xoshiro_step(s), (i - 1) as nat),
        ));
        assert(xoshiro_after(s, i + 1) == xoshiro_step(xoshiro_after(s, i)));
    } else {
        assert(xoshiro_after(xoshiro_step(s), 0) == xoshiro_step(s));
        assert(xoshiro_after(s, 1) == xoshiro_step(xoshiro_after(s, 0)));
    }
}

} // verus!
