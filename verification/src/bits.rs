//! The binary digits of numbers.

use vstd::arithmetic::div_mod::{
    lemma_basic_div, lemma_div_denominator, lemma_fundamental_div_mod,
    lemma_fundamental_div_mod_converse, lemma_mod_bound, lemma_mod_multiples_vanish,
};
use vstd::arithmetic::power2::{
    lemma2_to64, lemma2_to64_rest, lemma_pow2_adds, lemma_pow2_pos, lemma_pow2_unfold, pow2,
};
use vstd::prelude::*;

use crate::fr::modulus;

verus! {

/// The bit of `n` of weight `2^i`.
pub open spec fn bit(n: int, i: int) -> bool {
    (n / pow2(i as nat) as int) % 2 == 1
}

/// The 256 bits of `n`, the most significant one first.
pub open spec fn bits_be(n: int) -> Seq<bool> {
    Seq::new(256, |i: int| bit(n, 255 - i))
}

/// The number that stands for a bit.
pub open spec fn bit_value(b: bool) -> int {
    if b {
        1
    } else {
        0
    }
}

/// The number of which these are the bits, from the least significant one on.
pub open spec fn le_sum(bits: Seq<bool>) -> int
    decreases bits.len(),
{
    if bits.len() == 0 {
        0
    } else {
        le_sum(bits.drop_last()) + bit_value(bits.last()) * pow2((bits.len() - 1) as nat)
    }
}

/// The number of which these are the bits, from the most significant one on.
pub open spec fn be_sum(bits: Seq<bool>) -> int
    decreases bits.len(),
{
    if bits.len() == 0 {
        0
    } else {
        2 * be_sum(bits.drop_last()) + bit_value(bits.last())
    }
}

/// The `n` least significant bits of a number, from the least significant one on.
pub open spec fn bits_le(v: int, n: nat) -> Seq<bool> {
    Seq::new(n, |i: int| bit(v, i))
}

/// The two powers of two between which the order of the field lies.
pub proof fn lemma_powers_around_modulus()
    ensures
        pow2(254) == 0x4000000000000000000000000000000000000000000000000000000000000000nat,
        pow2(255) == 0x8000000000000000000000000000000000000000000000000000000000000000nat,
        pow2(254) < modulus() < pow2(255),
{
    lemma2_to64();
    lemma2_to64_rest();
    lemma_pow2_adds(64, 64);
    lemma_pow2_adds(128, 64);
    lemma_pow2_adds(192, 62);
    lemma_pow2_adds(192, 63);
}

/// The order of the field takes 255 bits, and so does the number below it, which
/// is even.
pub proof fn lemma_top_bits_of_modulus()
    ensures
        !bit(modulus(), 255),
        bit(modulus(), 254),
        !bit(modulus() - 1, 255),
        bit(modulus() - 1, 254),
        !bit(modulus() - 1, 0),
{
    lemma_powers_around_modulus();
    lemma2_to64();
    lemma_basic_div(modulus(), pow2(255) as int);
    lemma_basic_div(modulus() - 1, pow2(255) as int);
    lemma_fundamental_div_mod_converse(
        modulus(),
        pow2(254) as int,
        1,
        modulus() - pow2(254),
    );
    lemma_fundamental_div_mod_converse(
        modulus() - 1,
        pow2(254) as int,
        1,
        modulus() - 1 - pow2(254),
    );
    assert((modulus() - 1) / 1 == modulus() - 1);
    assert(pow2(0) == 1);
    assert((modulus() - 1) % 2 == 0);
}

/// A canonical representative has no bit above those that the field takes.
pub proof fn lemma_no_bit_above(v: int)
    requires
        0 <= v < modulus(),
    ensures
        !bit(v, 255),
{
    lemma_powers_around_modulus();
    lemma_basic_div(v, pow2(255) as int);
}

/// A number of so many bits is less than so high a power of two.
pub proof fn lemma_le_sum_range(bits: Seq<bool>)
    ensures
        0 <= le_sum(bits) < pow2(bits.len()),
    decreases bits.len(),
{
    if bits.len() == 0 {
        lemma2_to64();
    } else {
        let m = (bits.len() - 1) as nat;
        lemma_le_sum_range(bits.drop_last());
        lemma_pow2_unfold(bits.len());
        lemma_pow2_pos(m);
        assert(bit_value(true) * pow2(m) == pow2(m));
        assert(bit_value(false) * pow2(m) == 0);
    }
}

/// A number has the bits from which it was made.
pub proof fn lemma_le_sum_bits(bits: Seq<bool>, i: int)
    requires
        0 <= i < bits.len(),
    ensures
        bit(le_sum(bits), i) == bits[i],
    decreases bits.len(),
{
    let m = (bits.len() - 1) as nat;
    let rest = bits.drop_last();
    let low = le_sum(rest);
    let b = bit_value(bits.last());
    let d = pow2(i as nat) as int;
    lemma_pow2_pos(i as nat);
    lemma_le_sum_range(rest);
    if i == m {
        assert(low + b * d == b * d + low);
        lemma_fundamental_div_mod_converse(low + b * d, d, b, low);
    } else {
        lemma_le_sum_bits(rest, i);
        let k = pow2((m - i - 1) as nat) as int;
        // The last bit adds an even multiple of the power in question.
        assert(pow2(m) == 2 * k * d) by {
            lemma_pow2_adds(i as nat, (m - i) as nat);
            lemma_pow2_unfold((m - i) as nat);
            assert(d * (2 * k) == 2 * k * d) by (nonlinear_arith);
        }
        let q = low / d;
        let r = low % d;
        lemma_fundamental_div_mod(low, d);
        lemma_mod_bound(low, d);
        assert(low + b * (2 * k * d) == (q + 2 * (b * k)) * d + r) by (nonlinear_arith)
            requires
                low == d * q + r,
        ;
        lemma_fundamental_div_mod_converse(low + b * pow2(m), d, q + 2 * (b * k), r);
        lemma_mod_multiples_vanish(b * k, q, 2);
    }
}

/// A number is made of its lower bits and a multiple of its higher ones.
pub proof fn lemma_le_sum_split(bits: Seq<bool>, n: int)
    requires
        0 <= n <= bits.len(),
    ensures
        le_sum(bits) == le_sum(bits.take(n)) + pow2(n as nat) * le_sum(bits.skip(n)),
    decreases bits.len(),
{
    if n == bits.len() {
        assert(bits.take(n) =~= bits);
        assert(bits.skip(n) =~= Seq::<bool>::empty());
        assert(le_sum(bits.skip(n)) == 0);
    } else {
        let m = bits.len() - 1;
        let rest = bits.drop_last();
        lemma_le_sum_split(rest, n);
        assert(rest.take(n) =~= bits.take(n));
        assert(bits.skip(n).drop_last() =~= rest.skip(n));
        let b = bit_value(bits.last());
        let p = pow2(n as nat) as int;
        let q = pow2((m - n) as nat) as int;
        lemma_pow2_adds(n as nat, (m - n) as nat);
        let high = le_sum(rest.skip(n));
        assert(p * (high + b * q) == p * high + b * (p * q)) by (nonlinear_arith);
        assert(bits.skip(n).last() == bits.last());
        assert(le_sum(bits.skip(n)) == high + b * q);
    }
}

/// The bits of a number give back what remains of it modulo the power of two.
pub proof fn lemma_bits_sum(v: int, n: nat)
    requires
        0 <= v,
    ensures
        le_sum(bits_le(v, n)) == v % (pow2(n) as int),
    decreases n,
{
    lemma_pow2_pos(n);
    if n == 0 {
        lemma2_to64();
        lemma_fundamental_div_mod_converse(v, 1, v, 0);
    } else {
        let m = (n - 1) as nat;
        lemma_bits_sum(v, m);
        assert(bits_le(v, n).drop_last() =~= bits_le(v, m));
        let d = pow2(m) as int;
        lemma_pow2_pos(m);
        lemma_pow2_unfold(n);
        let q = v / d;
        let r = v % d;
        lemma_fundamental_div_mod(v, d);
        lemma_mod_bound(v, d);
        lemma_fundamental_div_mod(q, 2);
        let b = q % 2;
        assert(b == bit_value(bit(v, m as int)));
        assert(v == (q / 2) * (2 * d) + (b * d + r)) by (nonlinear_arith)
            requires
                v == d * q + r,
                q == 2 * (q / 2) + b,
        ;
        assert(0 <= b * d + r < 2 * d) by (nonlinear_arith)
            requires
                0 <= b <= 1,
                0 <= r < d,
        ;
        lemma_fundamental_div_mod_converse(v, 2 * d, q / 2, b * d + r);
    }
}

/// The most significant bits of a number, and one more of them.
pub proof fn lemma_prefix_step(v: int, k: nat)
    requires
        0 <= v,
    ensures
        v / (pow2(k) as int) == 2 * (v / (pow2(k + 1) as int)) + bit_value(bit(v, k as int)),
{
    lemma_pow2_pos(k);
    lemma_pow2_unfold(k + 1);
    let d = pow2(k) as int;
    lemma_div_denominator(v, d, 2);
    lemma_fundamental_div_mod(v / d, 2);
    assert(2 * d == d * 2);
}

/// The first bit of a number from the most significant one on.
proof fn lemma_be_sum_first(bits: Seq<bool>)
    requires
        bits.len() > 0,
    ensures
        be_sum(bits) == bit_value(bits[0]) * pow2((bits.len() - 1) as nat) + be_sum(
            bits.drop_first(),
        ),
    decreases bits.len(),
{
    if bits.len() == 1 {
        lemma2_to64();
        assert(bits.drop_last() =~= Seq::<bool>::empty());
        assert(bits.drop_first() =~= Seq::<bool>::empty());
        assert(be_sum(bits.drop_last()) == 0);
        assert(be_sum(bits.drop_first()) == 0);
        assert(pow2(0) == 1);
        assert(be_sum(bits) == bit_value(bits[0]));
        assert(bit_value(bits[0]) * 1 == bit_value(bits[0]));
    } else {
        lemma_be_sum_first(bits.drop_last());
        assert(bits.drop_last().drop_first() =~= bits.drop_first().drop_last());
        assert(bits.drop_first().last() == bits.last());
        assert(bits.drop_last()[0] == bits[0]);
        lemma_pow2_unfold((bits.len() - 1) as nat);
        let b = bit_value(bits[0]);
        let d = pow2((bits.len() - 2) as nat) as int;
        assert(be_sum(bits) == 2 * be_sum(bits.drop_last()) + bit_value(bits.last()));
        assert(be_sum(bits.drop_first()) == 2 * be_sum(bits.drop_first().drop_last()) + bit_value(
            bits.last(),
        ));
        assert(2 * (b * d) == b * (2 * d)) by (nonlinear_arith);
        assert(be_sum(bits.drop_last()) == b * d + be_sum(bits.drop_first().drop_last()));
        assert(pow2((bits.len() - 1) as nat) == 2 * d);
    }
}

/// Bits in reverse order give the same number read the other way.
pub proof fn lemma_be_sum_reversed(bits: Seq<bool>)
    ensures
        be_sum(bits) == le_sum(bits.reverse()),
    decreases bits.len(),
{
    if bits.len() > 0 {
        lemma_be_sum_first(bits);
        lemma_be_sum_reversed(bits.drop_first());
        assert(bits.reverse().drop_last() =~= bits.drop_first().reverse());
    }
}

} // verus!
