//! Facts about modular arithmetic shared by the modular solvers.
use vstd::arithmetic::div_mod::{lemma_mul_mod_noop_left, lemma_mul_mod_noop_right};
use vstd::arithmetic::power::{
    lemma_pow0,
    lemma_pow1,
    lemma_pow_adds,
    lemma_pow_mod_noop,
    lemma_pow_multiplies,
    lemma_square_is_pow2,
    pow,
};
use vstd::prelude::*;

verus! {

/// One round of square-and-multiply keeps `acc * base^e` fixed modulo `m`:
/// halving the exponent while squaring the base, and folding the odd factor
/// into the accumulator, both taken modulo `m`.
pub proof fn lemma_square_multiply_step(acc: int, base: int, e: nat, m: int)
    requires
        m > 0,
    ensures
        ({
            let acc2 = if e % 2 == 1 { (acc * base) % m } else { acc };
            (acc2 * pow((base * base) % m, e / 2)) % m == (acc * pow(base, e)) % m
        }),
{
    let k = e / 2;
    let odd: nat = e % 2;
    lemma_pow_adds(base, 2 * k, odd);
    assert(e == 2 * k + odd);
    lemma_pow_multiplies(base, 2, k);
    lemma_square_is_pow2(base);
    lemma_pow_mod_noop(base * base, k, m);
    let p = pow(base * base, k);
    let reduced = pow((base * base) % m, k);
    let x = if odd == 1 { acc * base } else { acc };
    if odd == 1 {
        lemma_pow1(base);
        assert(acc * pow(base, e) == x * p) by (nonlinear_arith)
            requires
                pow(base, e) == pow(base, 2 * k) * pow(base, odd),
                pow(base, 2 * k) == p,
                pow(base, odd) == base,
                x == acc * base,
        ;
        lemma_mul_mod_noop_left(x, reduced, m);
    } else {
        lemma_pow0(base);
        assert(acc * pow(base, e) == x * p) by (nonlinear_arith)
            requires
                pow(base, e) == pow(base, 2 * k) * pow(base, odd),
                pow(base, 2 * k) == p,
                pow(base, odd) == 1,
                x == acc,
        ;
    }
    lemma_mul_mod_noop_right(x, reduced, m);
    lemma_mul_mod_noop_right(x, p, m);
}

} // verus!
