//! Seeded pseudo-random draws and the single-precision scaling of a raw draw
//! into an integer range.
use rand::rngs::SmallRng;
use rand::RngCore;
use rand::SeedableRng;
use vstd::arithmetic::div_mod::lemma_div_denominator;
use vstd::arithmetic::div_mod::lemma_fundamental_div_mod;
use vstd::arithmetic::power2::lemma2_to64;
use vstd::arithmetic::power2::lemma2_to64_rest;
use vstd::arithmetic::power2::lemma_pow2_adds;
use vstd::arithmetic::power2::lemma_pow2_pos;
use vstd::arithmetic::power2::lemma_pow2_strictly_increases;
use vstd::arithmetic::power2::lemma_pow2_unfold;
use vstd::arithmetic::power2::pow2;
use vstd::prelude::*;

verus! {

/// `rand`'s small, fast generator, opaque to proofs.
#[verifier::external_type_specification]
#[verifier::external_body]
pub struct ExSmallRng(SmallRng);

/// The `k`-th 32-bit word (counting from zero) that a `SmallRng` seeded with
/// `seed` hands out. `rand` documents the generator as deterministic (its
/// algorithm is fixed for a given crate version and pointer width).
pub uninterp spec fn raw_draw(seed: u64, k: nat) -> u32;

/// A seeded generator, with the seed it was made from and the number of
/// words drawn from it so far.
pub struct Prng {
    rng: SmallRng,
    seed: Ghost<u64>,
    drawn: Ghost<nat>,
}

impl Prng {
    /// The seed the generator was made from.
    pub closed spec fn seed(self) -> u64 {
        self.seed@
    }

    /// How many words have been drawn from it.
    pub closed spec fn drawn(self) -> nat {
        self.drawn@
    }

    /// A generator seeded with `seed`, nothing drawn yet.
    pub fn new(seed: u64) -> (r: Prng)
        ensures
            r.seed() == seed,
            r.drawn() == 0,
    {
        seeded(seed)
    }
}

/// Relies on `SmallRng::seed_from_u64`: a fresh generator whose output is
/// determined by the seed alone.
#[verifier::external_body]
fn seeded(seed: u64) -> (r: Prng)
    ensures
        r.seed() == seed,
        r.drawn() == 0,
{
    Prng { rng: SmallRng::seed_from_u64(seed), seed: Ghost(seed), drawn: Ghost(0) }
}

/// Relies on `SmallRng::next_u32`: the next word of the generator's stream.
#[verifier::external_body]
fn next_word(p: &mut Prng) -> (r: u32)
    ensures
        r == raw_draw(old(p).seed(), old(p).drawn()),
        final(p).seed() == old(p).seed(),
        final(p).drawn() == old(p).drawn() + 1,
{
    let r = p.rng.next_u32();
    p.drawn = Ghost((p.drawn@ + 1) as nat);
    r
}

/// Splits `q * p` into a significand below 2^24 and a power-of-two scale,
/// halving the significand (and doubling the scale) until it fits.
pub open spec fn sig_split(q: nat, p: nat) -> (nat, nat)
    decreases q,
{
    if q < 0x100_0000 {
        (q, p)
    } else {
        sig_split(q / 2, p * 2)
    }
}

/// `v` rounded to the nearest number whose binary significand has at most
/// 24 bits, ties to an even significand: what a conversion to `f32` does.
pub open spec fn round_f32(v: nat) -> nat {
    let (q, p) = sig_split(v, 1);
    let rem = v - q * p;
    if p > 1 && (2 * rem > p || (2 * rem == p && q % 2 == 1)) {
        ((q + 1) * p) as nat
    } else {
        (q * p) as nat
    }
}

/// 2^32, the value of `u32::MAX` once converted to `f32`.
pub open spec fn two_pow_32() -> nat {
    0x1_0000_0000
}

/// The single-precision map of a raw word `x` into `[low, high]`:
/// `(x / 2^32) * (high - low) + low`, every operand and every intermediate
/// result rounded to `f32`, then truncated, saturating at `usize::MAX`.
/// Values are kept as integers scaled by 2^32, where rounding to 24
/// significant bits is the same as rounding the unscaled real.
pub open spec fn scaled(x: u32, low: usize, high: usize) -> nat {
    let xf = round_f32(x as nat);
    let n = round_f32((high - low) as nat);
    let prod = round_f32(xf * n);
    let sum = round_f32(prod + round_f32(low as nat) * two_pow_32());
    let t = sum / two_pow_32();
    if t > usize::MAX {
        usize::MAX as nat
    } else {
        t
    }
}

proof fn lemma_split_bounds(v: nat, q: nat, p: nat)
    requires
        p > 0,
        q == v / p,
    ensures
        q * p <= v,
        v < q * p + p,
{
    lemma_fundamental_div_mod(v as int, p as int);
    assert(v == p * q + v % p);
    assert(0 <= v % p < p) by {
        vstd::arithmetic::div_mod::lemma_mod_bound(v as int, p as int);
    }
    assert(q * p == p * q) by (nonlinear_arith);
}

/// Rounds `v` as a conversion to `f32` does.
fn round_to_f32(v: u128) -> (r: u128)
    requires
        v < 0x4000_0000_0000_0000_0000_0000_0000,
    ensures
        r == round_f32(v as nat),
        r <= 2 * v,
{
    let mut q: u128 = v;
    let mut p: u128 = 1;
    while q >= 0x100_0000
        invariant
            p > 0,
            q == v as nat / p as nat,
            q * p <= v,
            sig_split(q as nat, p as nat) == sig_split(v as nat, 1),
            p > 1 ==> q >= 0x80_0000,
        decreases q,
    {
        proof {
            lemma_split_bounds(v as nat, q as nat, p as nat);
            assert(2 * p <= v) by (nonlinear_arith)
                requires
                    q >= 0x100_0000,
                    q * p <= v,
                    p > 0,
            ;
            lemma_div_denominator(v as int, p as int, 2);
        }
        q = q / 2;
        p = p * 2;
        proof {
            lemma_split_bounds(v as nat, q as nat, p as nat);
        }
    }
    proof {
        lemma_split_bounds(v as nat, q as nat, p as nat);
    }
    let rem = v - q * p;
    if p > 1 && (2 * rem > p || (2 * rem == p && q % 2 == 1)) {
        assert((q + 1) * p <= 2 * v) by (nonlinear_arith)
            requires
                q >= 1,
                q * p <= v,
        ;
        (q + 1) * p
    } else {
        assert(q * p <= 2 * v);
        q * p
    }
}

/// Draws the next word and maps it into `[low, high]` as
/// `(x as f32 / u32::MAX as f32) * (high - low) as f32 + low as f32`,
/// truncated to an integer.
pub fn get_random_value(rng: &mut Prng, low: usize, high: usize) -> (r: usize)
    requires
        low <= high,
    ensures
        r == scaled(raw_draw(old(rng).seed(), old(rng).drawn()), low, high),
        final(rng).seed() == old(rng).seed(),
        final(rng).drawn() == old(rng).drawn() + 1,
{
    let x = next_word(rng);
    scale_draw(x, low, high)
}

/// Maps the raw word `x` into `[low, high]` as
/// `(x as f32 / u32::MAX as f32) * (high - low) as f32 + low as f32`,
/// truncated to an integer.
pub fn scale_draw(x: u32, low: usize, high: usize) -> (r: usize)
    requires
        low <= high,
    ensures
        r == scaled(x, low, high),
{
    let xf = round_to_f32(x as u128);
    let n = round_to_f32((high - low) as u128);
    assert(xf * n <= 0x2_0000_0000 * 0x2_0000_0000_0000_0000) by (nonlinear_arith)
        requires
            xf <= 0x2_0000_0000,
            n <= 0x2_0000_0000_0000_0000,
    ;
    let prod = round_to_f32(xf * n);
    let lf = round_to_f32(low as u128);
    let sum = round_to_f32(prod + lf * 0x1_0000_0000);
    let t = sum / 0x1_0000_0000;
    if t > usize::MAX as u128 {
        usize::MAX
    } else {
        t as usize
    }
}

/// The split of `v` ends at a significand `v / 2^e` below 2^24, and of at
/// least 2^23 wherever the scale is above one.
proof fn lemma_sig_split(v: nat, q0: nat, e0: nat) -> (e: nat)
    requires
        q0 == v / pow2(e0),
        e0 > 0 ==> q0 >= 0x80_0000,
    ensures
        e >= e0,
        sig_split(q0, pow2(e0)) == (v / pow2(e), pow2(e)),
        v / pow2(e) < 0x100_0000,
        e > 0 ==> v / pow2(e) >= 0x80_0000,
    decreases q0,
{
    lemma_pow2_pos(e0);
    if q0 < 0x100_0000 {
        e0
    } else {
        lemma_div_denominator(v as int, pow2(e0) as int, 2);
        lemma_pow2_unfold(e0 + 1);
        assert(pow2(e0) * 2 == pow2(e0 + 1));
        lemma_sig_split(v, q0 / 2, e0 + 1)
    }
}

/// Rounding never carries a value past `2^32 * high` for `high` up to 2^24.
proof fn lemma_round_within(v: nat, high: nat)
    requires
        1 <= high <= 0x100_0000,
        v <= two_pow_32() * high,
    ensures
        round_f32(v) <= two_pow_32() * high,
{
    let b = two_pow_32() * high;
    lemma2_to64();
    lemma2_to64_rest();
    assert(v / pow2(0) == v);
    let e = lemma_sig_split(v, v, 0);
    let p = pow2(e);
    let q = v / p;
    lemma_pow2_pos(e);
    lemma_split_bounds(v, q, p);
    let m: nat = if e <= 32 {
        lemma_pow2_adds(e, (32 - e) as nat);
        assert(b == p * (pow2((32 - e) as nat) * high)) by (nonlinear_arith)
            requires
                b == two_pow_32() * high,
                two_pow_32() == pow2(32),
                pow2(32) == p * pow2((32 - e) as nat),
        ;
        pow2((32 - e) as nat) * high
    } else {
        if e > 33 {
            if e > 34 {
                lemma_pow2_strictly_increases(34, e);
            }
            assert(p >= 0x4_0000_0000);
            assert(q * p >= 0x80_0000 * 0x4_0000_0000) by (nonlinear_arith)
                requires
                    q >= 0x80_0000,
                    p >= 0x4_0000_0000,
            ;
            assert(false);
        }
        assert(e == 33);
        assert(p == 0x2_0000_0000);
        assert(q * p >= 0x80_0000 * 0x2_0000_0000) by (nonlinear_arith)
            requires
                q >= 0x80_0000,
                p >= 0x2_0000_0000,
        ;
        assert(high == 0x100_0000);
        0x80_0000
    };
    assert(b == p * m);
    assert(sig_split(v, 1) == (q, p));
    if q * p < b {
        assert((q + 1) * p <= b) by (nonlinear_arith)
            requires
                q * p < p * m,
                b == p * m,
                p > 0,
        ;
        assert(q * p <= (q + 1) * p) by (nonlinear_arith)
            requires
                p > 0,
        ;
    } else {
        assert(v - q * p == 0);
    }
}

proof fn lemma_round_exact(v: nat, q: nat, p: nat)
    requires
        sig_split(v, 1) == (q, p),
        q * p == v,
    ensures
        round_f32(v) == v,
{
}

/// A draw mapped into `[0, high]`, for `high` up to 2^24 (where every
/// bound is exact in `f32`), never exceeds `high`.
pub proof fn lemma_draw_within_bound(x: u32, high: usize)
    requires
        high <= 0x100_0000,
    ensures
        scaled(x, 0, high) <= high,
{
    let b = two_pow_32() * high;
    assert(round_f32(0) == 0);
    if high == 0 {
        assert(round_f32((high - 0) as nat) == 0);
    } else {
        lemma_round_within(x as nat, 1);
        let xf = round_f32(x as nat);
        if high < 0x100_0000 {
            assert(sig_split(high as nat, 1) == (high as nat, 1nat));
            lemma_round_exact(high as nat, high as nat, 1);
        } else {
            assert(sig_split(0x80_0000, 2) == (0x80_0000nat, 2nat));
            assert(sig_split(0x100_0000, 1) == sig_split(0x80_0000, 2));
            lemma_round_exact(high as nat, 0x80_0000, 2);
        }
        assert(xf * high <= b) by (nonlinear_arith)
            requires
                xf <= two_pow_32(),
                b == two_pow_32() * high,
        ;
        lemma_round_within(xf * (high as nat), high as nat);
        let prod = round_f32(xf * (high as nat));
        assert(prod + round_f32(0) * two_pow_32() == prod);
        lemma_round_within(prod, high as nat);
        let sum = round_f32(prod);
        assert(sum / two_pow_32() <= high) by (nonlinear_arith)
            requires
                sum <= two_pow_32() * high,
                two_pow_32() > 0,
        ;
    }
}

} // verus!
