//! Facts about products and rounded-down quotients that the weight formulas
//! and the acceptance test rest on.

use vstd::arithmetic::div_mod::{lemma_fundamental_div_mod, lemma_mod_pos_bound};
use vstd::prelude::*;

verus! {

/// A product of two naturals grows with its factors.
pub proof fn lemma_product_bound(a: nat, b: nat, bound_a: nat, bound_b: nat)
    by (nonlinear_arith)
    requires
        a <= bound_a,
        b <= bound_b,
    ensures
        a * b <= bound_a * bound_b,
{
}

/// A rounded-down quotient loses less than one.
pub proof fn lemma_floor_bounds(num: nat, den: nat)
    requires
        den > 0,
    ensures
        (num / den) * den <= num,
        num < (num / den) * den + den,
        num / den <= num,
{
    lemma_fundamental_div_mod(num as int, den as int);
    lemma_mod_pos_bound(num as int, den as int);
    let q = num / den;
    assert(den * q == q * den) by (nonlinear_arith);
    assert(q <= q * den) by (nonlinear_arith)
        requires
            den >= 1,
            q >= 0,
    ;
}

/// The share `x * part / whole` of `x`, rounded down, is at most `x` where
/// the part is within the whole, and below `x` where it is a proper part.
pub proof fn lemma_share_bounds(x: nat, part: nat, whole: nat)
    requires
        whole > 0,
        part <= whole,
    ensures
        (x * part) / whole <= x,
        part < whole && x > 0 ==> (x * part) / whole < x,
{
    lemma_floor_bounds(x * part, whole);
    let q = (x * part) / whole;
    assert(x * part <= x * whole) by (nonlinear_arith)
        requires
            part <= whole,
    ;
    assert(q <= x) by (nonlinear_arith)
        requires
            q * whole <= x * part,
            x * part <= x * whole,
            whole > 0,
    ;
    if part < whole && x > 0 {
        assert(x * part < x * whole) by (nonlinear_arith)
            requires
                part < whole,
                x > 0,
        ;
        assert(q < x) by (nonlinear_arith)
            requires
                q * whole <= x * part,
                x * part < x * whole,
                whole > 0,
        ;
    }
}

} // verus!
