//! Levels and fuel in machine integers.
use crate::model::{fuel_for, level_of};
use crate::tidying::lemma_level_of;
use crate::wellformed::{lemma_pow2_double, lemma_pow2_le};
use vstd::arithmetic::power2::{lemma2_to64, lemma2_to64_rest, pow2};
use vstd::prelude::*;

verus! {

/// Only one level is the least whose capacity holds `n`.
pub proof fn lemma_level_unique(n: nat, level: nat)
    requires
        n <= pow2(level),
        level > 0 ==> pow2((level - 1) as nat) < n,
    ensures
        level == level_of(n),
{
    lemma_level_of(n);
    let other = level_of(n);
    if level < other {
        lemma_pow2_le(level, (other - 1) as nat);
    } else if other < level {
        lemma_pow2_le(other, (level - 1) as nat);
    }
}

/// The level of a batch of `n` updates: the least `level` with
/// `n <= 2^level`.
pub fn level_for(n: usize) -> (level: usize)
    ensures
        level == level_of(n as nat),
        level <= 64,
        n <= pow2(level as nat),
{
    let mut level: usize = 0;
    let mut cap: u128 = 1;
    proof {
        lemma2_to64();
        lemma2_to64_rest();
    }
    while cap < n as u128
        invariant
            cap == pow2(level as nat),
            level <= 64,
            cap <= 0x1_0000_0000_0000_0000,
            level > 0 ==> pow2((level - 1) as nat) < n,
        decreases 0x1_0000_0000_0000_0000 - cap,
    {
        proof {
            lemma_pow2_double(level as nat);
            lemma2_to64_rest();
            assert(n <= 0xFFFF_FFFF_FFFF_FFFF);
            if level >= 64 {
                lemma_pow2_le(64, level as nat);
            }
            lemma_pow2_le((level + 1) as nat, 64);
        }
        cap = cap * 2;
        level = level + 1;
    }
    proof {
        lemma_level_unique(n as nat, level as nat);
    }
    level
}

/// Two to the power `level`, for a level up to 64.
pub fn capacity(level: usize) -> (cap: u128)
    requires
        level <= 64,
    ensures
        cap == pow2(level as nat),
        1 <= cap <= 0x1_0000_0000_0000_0000,
{
    let mut i: usize = 0;
    let mut cap: u128 = 1;
    proof {
        lemma2_to64();
        lemma2_to64_rest();
    }
    while i < level
        invariant
            i <= level <= 64,
            cap == pow2(i as nat),
        decreases level - i,
    {
        proof {
            lemma_pow2_double(i as nat);
            lemma_pow2_le((i + 1) as nat, 64);
            lemma2_to64_rest();
        }
        cap = cap * 2;
        i = i + 1;
    }
    proof {
        lemma_pow2_le(level as nat, 64);
        lemma2_to64_rest();
    }
    cap
}

/// The fuel that an insertion at `level` brings: `8 * 2^level * effort`,
/// or the largest count of the machine where that is less.
pub fn fuel_units(level: usize, effort: usize) -> (fuel: usize)
    ensures
        fuel == fuel_for(level as nat, effort as nat, usize::MAX as nat),
{
    if effort == 0 {
        assert(8 * pow2(level as nat) * 0 == 0);
        return 0;
    }
    if level > 64 {
        proof {
            lemma_pow2_le(64, level as nat);
            lemma2_to64_rest();
            let p = pow2(level as nat);
            assert(8 * p * effort >= 8 * p) by (nonlinear_arith)
                requires
                    effort >= 1,
                    p >= 0,
            ;
        }
        return usize::MAX;
    }
    let cap = capacity(level);
    let per_effort: u128 = 8 * cap;
    if per_effort > usize::MAX as u128 {
        proof {
            let p = pow2(level as nat);
            assert(8 * p * effort >= 8 * p) by (nonlinear_arith)
                requires
                    effort >= 1,
                    p >= 0,
            ;
        }
        return usize::MAX;
    }
    assert(per_effort * (effort as u128) <= 0xFFFF_FFFF_FFFF_FFFF * 0xFFFF_FFFF_FFFF_FFFF)
        by (nonlinear_arith)
        requires
            per_effort <= 0xFFFF_FFFF_FFFF_FFFF,
            effort <= 0xFFFF_FFFF_FFFF_FFFF,
    ;
    let fuel: u128 = per_effort * (effort as u128);
    if fuel > usize::MAX as u128 {
        usize::MAX
    } else {
        fuel as usize
    }
}

} // verus!
