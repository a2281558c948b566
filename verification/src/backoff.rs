//! Exponential backoff.

use vstd::arithmetic::power2::{lemma_pow2_strictly_increases, lemma_pow2_unfold, pow2};
use vstd::prelude::*;

verus! {

/// How often the delay doubles before it stops growing on its own.
pub const MAX_DOUBLINGS: u32 = 12;

/// `base` doubled once per attempt, twelve times at the most, and never more
/// than `ceiling`.
pub open spec fn delay(base: int, ceiling: int, attempts: nat) -> int {
    let n: nat = if attempts < MAX_DOUBLINGS {
        attempts
    } else {
        MAX_DOUBLINGS as nat
    };
    let grown = base * pow2(n);
    if grown < ceiling {
        grown
    } else {
        ceiling
    }
}

/// The wait before the next attempt, in milliseconds.
pub fn delay_ms(base: i64, ceiling: i64, attempts: u32) -> (r: i64)
    requires
        0 < base <= 1_000_000,
    ensures
        r == delay(base as int, ceiling as int, attempts as nat),
{
    let n: u32 = if attempts < MAX_DOUBLINGS {
        attempts
    } else {
        MAX_DOUBLINGS
    };
    let mut grown: i64 = base;
    let mut i: u32 = 0;
    proof {
        vstd::arithmetic::power2::lemma2_to64();
    }
    while i < n
        invariant
            i <= n <= MAX_DOUBLINGS,
            0 < base <= 1_000_000,
            grown == base * pow2(i as nat),
            pow2(12) == 4096,
        decreases n - i,
    {
        proof {
            lemma_pow2_strictly_increases(i as nat, 12);
            lemma_pow2_unfold((i + 1) as nat);
            let p = pow2(i as nat) as int;
            assert(base * p < 1_000_000 * 4096) by (nonlinear_arith)
                requires
                    0 < base <= 1_000_000,
                    p < 4096,
            ;
            assert(base * (2 * p) == 2 * (base * p)) by (nonlinear_arith);
        }
        grown = grown * 2;
        i = i + 1;
    }
    if grown < ceiling {
        grown
    } else {
        ceiling
    }
}

/// The delay never falls as failures accumulate, and never passes the ceiling.
pub proof fn backoff_is_monotone(base: int, ceiling: int, fewer: nat, more: nat)
    requires
        0 <= base,
        fewer <= more,
    ensures
        delay(base, ceiling, fewer) <= delay(base, ceiling, more) <= ceiling,
{
    let a: nat = if fewer < MAX_DOUBLINGS { fewer } else { MAX_DOUBLINGS as nat };
    let b: nat = if more < MAX_DOUBLINGS { more } else { MAX_DOUBLINGS as nat };
    if a < b {
        lemma_pow2_strictly_increases(a, b);
        let p = pow2(a) as int;
        let q = pow2(b) as int;
        assert(base * p <= base * q) by (nonlinear_arith)
            requires
                0 <= base,
                p <= q,
        ;
    }
}

/// The first delay is the base, and every further failure doubles it until the ceiling is
/// reached.
pub proof fn backoff_doubles(base: int, ceiling: int, attempts: nat)
    requires
        0 < base < ceiling,
        attempts < 12,
    ensures
        delay(base, ceiling, 0) == base,
        delay(base, ceiling, attempts + 1) == if 2 * delay(base, ceiling, attempts) < ceiling {
            2 * delay(base, ceiling, attempts)
        } else {
            ceiling
        },
{
    vstd::arithmetic::power2::lemma2_to64();
    lemma_pow2_unfold(attempts + 1);
    let p = pow2(attempts) as int;
    assert(base * 1 == base);
    assert(base * (2 * p) == 2 * (base * p)) by (nonlinear_arith);
}

} // verus!
