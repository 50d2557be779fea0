//! Deterministic, seedable 32-bit pseudo-random generator: a Galois
//! linear-feedback shift register with a fixed tap mask, plus a range-mapping
//! helper that turns one draw into an integer in a caller-chosen interval.
//!
//! The recurrence is the generator's entire specification: identical seeds
//! yield identical output sequences on every platform.

use vstd::prelude::*;

verus! {

/// The tap mask of the shift register.
pub const GALOIS_TAPS: u32 = 0x8020_0003;

/// Largest value a draw can take; divisor of the range mapping.
pub const DRAW_MAX: u32 = 0xFFFF_FFFF;

/// Generator context: a single 32-bit state word, owned by the caller so that
/// independent sequences can coexist and stay reproducible.
pub struct PrngCtxGaloisLsfw {
    pub value: u32,
}

/// One step of the recurrence: shift right by one and, when the bit shifted
/// out was set, XOR the tap mask in.
pub open spec fn galois_step(v: u32) -> u32 {
    (v >> 1u32) ^ (if v & 1 == 1 { GALOIS_TAPS } else { 0u32 })
}

/// The state after `n` steps from state `v`.
pub open spec fn galois_iter(v: u32, n: nat) -> u32
    decreases n,
{
    if n == 0 {
        v
    } else {
        galois_step(galois_iter(v, (n - 1) as nat))
    }
}

/// Exact value of the range mapping for a draw `v`: the real number
/// `v / 4294967295 * (max - min)` rounded half-up, plus `min`; written with
/// integer arithmetic as `floor((2 * v * (max - min) + 4294967295) / (2 * 4294967295)) + min`.
/// The half-up rounding makes `max` itself reachable.
pub open spec fn range_map(v: u32, min: int, max: int) -> int
    recommends
        min <= max,
{
    (2 * v * (max - min) + DRAW_MAX) / (2 * DRAW_MAX as int) + min
}

/// Sets the state to `s` exactly, with no mixing.
pub fn prng_seed_galois_lsfw(ctx: &mut PrngCtxGaloisLsfw, s: u32)
    ensures
        final(ctx).value == s,
{
    ctx.value = s;
}

/// Advances the state by one step of the recurrence and returns the new state.
pub fn prng_galois_lsfw(ctx: &mut PrngCtxGaloisLsfw) -> (r: u32)
    ensures
        final(ctx).value == galois_step(old(ctx).value),
        r == final(ctx).value,
{
    let shifted = ctx.value >> 1u32;
    let anded: u32 = if ctx.value & 1 == 1 {
        GALOIS_TAPS
    } else {
        0
    };
    ctx.value = shifted ^ anded;
    ctx.value
}

/// Draws one value and maps it into `[min, max]`, both ends inclusive; the
/// result is exactly `range_map` of the draw.
pub fn prng_galois_lsfw_int_minmax(ctx: &mut PrngCtxGaloisLsfw, min: i32, max: i32) -> (r: i32)
    requires
        min <= max,
    ensures
        final(ctx).value == galois_step(old(ctx).value),
        r == range_map(final(ctx).value, min as int, max as int),
        min <= r <= max,
{
    let v = prng_galois_lsfw(ctx);
    let range: u64 = (max as i64 - min as i64) as u64;
    proof {
        assert((v as int) * (range as int) <= 0xFFFF_FFFF * 0xFFFF_FFFF) by (nonlinear_arith)
            requires
                0 <= v as int <= 0xFFFF_FFFF,
                0 <= range as int <= 0xFFFF_FFFF,
        ;
    }
    let prod: u128 = (v as u128) * (range as u128);
    let num: u128 = 2 * prod + (DRAW_MAX as u128);
    let den: u128 = 2 * (DRAW_MAX as u128);
    let q: u128 = num / den;
    proof {
        lemma_range_map_bounds(v, min as int, max as int);
        assert(2 * (v as int) * (max - min) == 2 * ((v as int) * (max - min))) by (nonlinear_arith);
        assert(q == range_map(v, min as int, max as int) - min);
    }
    (q as i64 + min as i64) as i32
}

/// Determinism of the sequence: the state after `m + n` steps is the state
/// after `n` steps from the state after `m` steps, all a function of the
/// seed alone. So two contexts with equal state produce equal draws forever,
/// and reseeding with the same value restarts exactly the same sequence.
pub proof fn lemma_galois_iter_add(v: u32, m: nat, n: nat)
    ensures
        galois_iter(galois_iter(v, m), n) == galois_iter(v, m + n),
    decreases n,
{
    if n > 0 {
        lemma_galois_iter_add(v, m, (n - 1) as nat);
    }
}

/// The range mapping lands in `[min, max]`: the numerator is below
/// `denominator * (max - min + 1)`, so the quotient is at most `max - min`.
pub proof fn lemma_range_map_bounds(v: u32, min: int, max: int)
    requires
        min <= max,
    ensures
        min <= range_map(v, min, max) <= max,
{
    let range = max - min;
    let num = 2 * v * range + DRAW_MAX;
    let den = 2 * DRAW_MAX as int;
    vstd::arithmetic::div_mod::lemma_fundamental_div_mod(num as int, den);
    vstd::arithmetic::div_mod::lemma_mod_bound(num as int, den);
    assert(num <= den * range + DRAW_MAX) by (nonlinear_arith)
        requires
            0 <= v <= DRAW_MAX,
            0 <= range,
            num == 2 * v * range + DRAW_MAX,
            den == 2 * DRAW_MAX as int,
    ;
    assert(num / den <= range) by (nonlinear_arith)
        requires
            num == den * (num / den) + num % den,
            0 <= num % den < den,
            num <= den * range + DRAW_MAX,
            0 < DRAW_MAX < den,
            0 <= range,
    ;
    assert(num / den >= 0) by (nonlinear_arith)
        requires
            num == den * (num / den) + num % den,
            0 <= num % den < den,
            num >= 0,
            den > 0,
    ;
}

} // verus!
