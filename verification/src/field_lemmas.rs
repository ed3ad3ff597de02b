//! Facts about arithmetic modulo the order of the field.

use vstd::arithmetic::div_mod::{
    lemma_add_mod_noop, lemma_add_mod_noop_right, lemma_fundamental_div_mod,
    lemma_mod_add_multiples_vanish, lemma_mod_bound, lemma_mod_multiples_vanish, lemma_mod_twice,
    lemma_mul_mod_noop_general, lemma_mul_mod_noop_left, lemma_mul_mod_noop_right, lemma_small_mod,
    lemma_sub_mod_noop, lemma_sub_mod_noop_right,
};
use vstd::prelude::*;

use crate::fr::{fe, inverse, is_prime, modulus};

verus! {

/// An element has at most one inverse.
pub proof fn lemma_inverse_unique(x: int, y: int)
    requires
        0 <= y < modulus(),
        fe(x * y) == 1,
    ensures
        y == inverse(x),
{
    let z = inverse(x);
    let p = modulus();
    // y == y * (x * z) == (x * y) * z == z
    assert((y * (x * z)) % p == y) by {
        lemma_mul_mod_noop_right(y, x * z, p);
        lemma_small_mod(y as nat, p as nat);
    }
    assert(((x * y) * z) % p == z) by {
        lemma_mul_mod_noop_left(x * y, z, p);
        lemma_small_mod(z as nat, p as nat);
    }
    assert(y * (x * z) == (x * y) * z) by (nonlinear_arith);
}

/// Two canonical representatives differ by zero just when they are the same.
pub proof fn lemma_difference_zero(a: int, b: int)
    requires
        0 <= a < modulus(),
        0 <= b < modulus(),
    ensures
        fe(a - b) == 0 <==> a == b,
{
    if a >= b {
        lemma_small_mod((a - b) as nat, modulus() as nat);
    } else {
        lemma_mod_add_multiples_vanish(a - b, modulus());
        lemma_small_mod((a - b + modulus()) as nat, modulus() as nat);
    }
}

/// The product with minus one is the negation.
pub proof fn lemma_negated_product(x: int)
    ensures
        fe(x * fe(-1)) == fe(-x),
{
    lemma_mul_mod_noop_right(x, -1, modulus());
    assert(x * -1 == -x) by (nonlinear_arith);
}

/// A residue is a canonical representative.
pub proof fn lemma_fe_range(x: int)
    ensures
        0 <= fe(x) < modulus(),
{
    lemma_mod_bound(x, modulus());
}

/// A canonical representative is its own residue.
pub proof fn lemma_fe_small(x: int)
    requires
        0 <= x < modulus(),
    ensures
        fe(x) == x,
{
    lemma_small_mod(x as nat, modulus() as nat);
}

/// Residues may be taken before a sum is.
pub proof fn lemma_fe_sum(x: int, y: int)
    ensures
        fe(fe(x) + fe(y)) == fe(x + y),
        fe(fe(x) + y) == fe(x + y),
        fe(x + fe(y)) == fe(x + y),
{
    lemma_add_mod_noop(x, y, modulus());
    lemma_add_mod_noop_right(x, y, modulus());
    lemma_add_mod_noop_right(y, x, modulus());
}

/// Residues may be taken before a difference is.
pub proof fn lemma_fe_difference(x: int, y: int)
    ensures
        fe(fe(x) - fe(y)) == fe(x - y),
        fe(x - fe(y)) == fe(x - y),
        fe(fe(x) - y) == fe(x - y),
{
    lemma_sub_mod_noop(x, y, modulus());
    lemma_sub_mod_noop_right(x, y, modulus());
    lemma_sub_mod_noop(fe(x), y, modulus());
    lemma_mod_twice(x, modulus());
}

/// Residues may be taken before a product is.
pub proof fn lemma_fe_product(x: int, y: int)
    ensures
        fe(fe(x) * fe(y)) == fe(x * y),
        fe(fe(x) * y) == fe(x * y),
        fe(x * fe(y)) == fe(x * y),
{
    lemma_mul_mod_noop_general(x, y, modulus());
}

/// Every number that is no multiple of a prime has an inverse modulo it.
pub proof fn lemma_invertible(p: int, d: int) -> (y: int)
    requires
        is_prime(p),
        0 < d < p,
    ensures
        0 <= y < p,
        (d * y) % p == 1,
    decreases d,
{
    if d == 1 {
        lemma_small_mod(1, p as nat);
        1
    } else {
        // p == q * d + r with 0 < r < d, so an inverse z of r gives d * (-q * z) == 1.
        let q = p / d;
        let r = p % d;
        lemma_mod_bound(p, d);
        lemma_fundamental_div_mod(p, d);
        let z = lemma_invertible(p, r);
        let y = (-q * z) % p;
        lemma_mod_bound(-q * z, p);
        assert(d * (-q * z) == r * z + (-z) * p) by (nonlinear_arith)
            requires
                p == d * q + r,
        ;
        lemma_mod_multiples_vanish(-z, r * z, p);
        assert(p * (-z) + r * z == r * z + (-z) * p) by (nonlinear_arith);
        lemma_mul_mod_noop_right(d, -q * z, p);
        y
    }
}

/// In a prime field every element but zero has an inverse.
pub proof fn lemma_inverse_exists(x: int)
    requires
        is_prime(modulus()),
        0 < x < modulus(),
    ensures
        0 <= inverse(x) < modulus(),
        fe(x * inverse(x)) == 1,
{
    let y = lemma_invertible(modulus(), x);
    assert(fe(x * y) == 1);
}

/// In a prime field a product is zero only where a factor is.
pub proof fn lemma_no_zero_divisors(x: int, y: int)
    requires
        is_prime(modulus()),
        fe(x * y) == 0,
    ensures
        fe(x) == 0 || fe(y) == 0,
{
    if fe(x) != 0 {
        // y == (z * x) * y == z * (x * y) == 0, for the inverse z of x
        lemma_fe_range(x);
        let z = inverse(fe(x));
        lemma_inverse_exists(fe(x));
        lemma_fe_product(x, z);
        lemma_fe_product(x * z, y);
        lemma_fe_product(x * y, z);
        assert((x * z) * y == (x * y) * z) by (nonlinear_arith);
    }
}

/// In a prime field only zero and one are their own squares.
pub proof fn lemma_own_square(x: int)
    requires
        is_prime(modulus()),
        0 <= x < modulus(),
        fe((1 - x) * x) == 0,
    ensures
        x == 0 || x == 1,
{
    lemma_no_zero_divisors(1 - x, x);
    lemma_fe_small(x);
    if fe(1 - x) == 0 {
        lemma_difference_zero(1, x);
    }
}

} // verus!
