//! The default pricing policy: a pure function from a pool and an input
//! amount to an output amount.
//!
//! The policy is `output = a - floor(a * fee / 1_000_000)`, clamped at zero,
//! with the fee in parts per million. It is a placeholder for a depth-aware
//! formula; what the route search depends on is only the contract proved
//! here: the output never exceeds the input, and the output is monotonic in
//! the input.

use vstd::arithmetic::div_mod::{
    lemma_div_is_ordered, lemma_div_pos_is_pos, lemma_fundamental_div_mod,
    lemma_hoist_over_denominator,
};
use vstd::arithmetic::mul::{lemma_mul_inequality, lemma_mul_is_commutative, lemma_mul_nonnegative};
use vstd::prelude::*;

use crate::pool::Pool;

verus! {

/// One million parts per million is 100%.
pub const FEE_DENOMINATOR: u32 = 1_000_000;

/// The deduction the default policy takes from an amount `a` at fee `fee`:
/// `floor(a * fee / 1_000_000)`.
pub open spec fn spec_fee_deduction(fee: int, a: int) -> int {
    (a * fee) / (FEE_DENOMINATOR as int)
}

/// The output the default policy yields for an input `a` at fee `fee`,
/// clamped at zero so that a pathological fee can never make it wrap.
pub open spec fn spec_output_amount(fee: int, a: int) -> int {
    if spec_fee_deduction(fee, a) >= a {
        0
    } else {
        a - spec_fee_deduction(fee, a)
    }
}

/// For an acceptable fee the deduction lies between zero and the input.
pub proof fn lemma_deduction_in_range(fee: int, a: int)
    requires
        0 <= fee <= FEE_DENOMINATOR,
        0 <= a,
    ensures
        0 <= spec_fee_deduction(fee, a) <= a,
{
    let m = FEE_DENOMINATOR as int;
    lemma_mul_nonnegative(a, fee);
    lemma_div_pos_is_pos(a * fee, m);
    lemma_mul_inequality(fee, m, a);
    lemma_mul_is_commutative(fee, a);
    lemma_mul_is_commutative(m, a);
    lemma_div_is_ordered(a * fee, a * m, m);
    vstd::arithmetic::div_mod::lemma_div_multiples_vanish(a, m);
}

/// No value creation: the output never exceeds the input, whatever the fee.
pub proof fn lemma_output_le_input(fee: int, a: int)
    requires
        0 <= fee,
        0 <= a,
    ensures
        0 <= spec_output_amount(fee, a) <= a,
{
}

/// Monotonicity: a larger input never yields a smaller output, whatever the
/// fee.
pub proof fn lemma_output_monotonic(fee: int, a1: int, a2: int)
    requires
        0 <= fee,
        0 <= a1 <= a2,
    ensures
        spec_output_amount(fee, a1) <= spec_output_amount(fee, a2),
    decreases 0int,
{
    let m = FEE_DENOMINATOR as int;
    if fee <= m {
        lemma_deduction_in_range(fee, a1);
        lemma_deduction_in_range(fee, a2);
        // a2 * fee <= a1 * fee + (a2 - a1) * m, so dividing by m gives
        // ded(a2) <= ded(a1) + (a2 - a1).
        lemma_mul_inequality(fee, m, a2 - a1);
        lemma_mul_is_commutative(fee, a2 - a1);
        lemma_mul_is_commutative(m, a2 - a1);
        assert(a2 * fee == a1 * fee + (a2 - a1) * fee) by (nonlinear_arith);
        lemma_div_is_ordered(a2 * fee, a1 * fee + (a2 - a1) * m, m);
        lemma_hoist_over_denominator(a1 * fee, a2 - a1, m as nat);
    } else {
        // fee above the denominator: both outputs are clamped to zero.
        lemma_output_clamped(fee, a1);
        lemma_output_clamped(fee, a2);
    }
}

/// A fee of at least the whole denominator consumes the whole input.
proof fn lemma_output_clamped(fee: int, a: int)
    requires
        fee >= FEE_DENOMINATOR,
        0 <= a,
    ensures
        spec_output_amount(fee, a) == 0,
{
    let m = FEE_DENOMINATOR as int;
    lemma_mul_inequality(m, fee, a);
    lemma_mul_is_commutative(m, a);
    lemma_mul_is_commutative(fee, a);
    lemma_div_is_ordered(a * m, a * fee, m);
    vstd::arithmetic::div_mod::lemma_div_multiples_vanish(a, m);
}

/// The output the default pricing policy yields when `amount_in` enters
/// `pool`: the input minus the pool's fee share, clamped at zero.
///
/// Total over every fee and amount; for a pool the registry accepted the
/// fee is at most the denominator and the clamp never engages.
pub fn calculate_amount_out(pool: &Pool, amount_in: u128) -> (r: u128)
    ensures
        r == spec_output_amount(pool.fee as int, amount_in as int),
{
    let fee = pool.fee;
    if fee >= FEE_DENOMINATOR {
        proof {
            lemma_output_clamped(fee as int, amount_in as int);
        }
        return 0;
    }
    let m: u128 = FEE_DENOMINATOR as u128;
    let q: u128 = amount_in / m;
    let r0: u128 = amount_in % m;
    proof {
        lemma_fundamental_div_mod(amount_in as int, m as int);
        // q * fee stays below the input, so neither product overflows.
        assert(q * (fee as u128) <= q * m <= amount_in) by (nonlinear_arith)
            requires
                fee < m,
                q == amount_in / m,
                m == FEE_DENOMINATOR as u128,
        ;
        assert(r0 * (fee as u128) < m * m) by (nonlinear_arith)
            requires
                r0 < m,
                fee < m,
        ;
    }
    let part_whole: u128 = q * (fee as u128);
    let part_rest: u128 = (r0 * (fee as u128)) / m;
    proof {
        lemma_split_deduction(fee as int, amount_in as int, q as int, r0 as int);
        lemma_deduction_in_range(fee as int, amount_in as int);
    }
    let deduction: u128 = part_whole + part_rest;
    amount_in - deduction
}

/// Splitting the input into whole multiples of the denominator and a rest
/// splits the deduction exactly.
proof fn lemma_split_deduction(fee: int, a: int, q: int, r0: int)
    requires
        0 <= fee < FEE_DENOMINATOR,
        0 <= a,
        q == a / (FEE_DENOMINATOR as int),
        r0 == a % (FEE_DENOMINATOR as int),
    ensures
        spec_fee_deduction(fee, a) == q * fee + (r0 * fee) / (FEE_DENOMINATOR as int),
{
    let m = FEE_DENOMINATOR as int;
    lemma_fundamental_div_mod(a, m);
    assert(a * fee == r0 * fee + (q * fee) * m) by (nonlinear_arith)
        requires
            a == m * q + r0,
    ;
    lemma_hoist_over_denominator(r0 * fee, q * fee, m as nat);
}

} // verus!
