//! The scalar field of BLS12-381.
//!
//! An element is kept as the four 64-bit limbs of its canonical representative,
//! least significant limb first. The arithmetic itself is done by the field type
//! of the pairing library.

use bellman_ce::pairing::bls12_381;
use bellman_ce::pairing::ff::{BitIterator, Field, PrimeField, PrimeFieldRepr};
use vstd::prelude::*;

use crate::bits::bits_be;
use crate::decimal::{decimal_value, is_decimal};
use crate::field_lemmas::lemma_inverse_unique;

verus! {

/// How many bits an element of the field takes.
pub const NUM_BITS: usize = 255;

/// The order of the field.
pub open spec fn modulus() -> int {
    0x73eda753299d7d483339d80809a1d80553bda402fffe5bfeffffffff00000001int
}

/// The canonical representative of the residue class of `x`.
pub open spec fn fe(x: int) -> int {
    x % modulus()
}

/// The number that four limbs stand for, least significant limb first.
pub open spec fn limbs_value(limbs: [u64; 4]) -> int {
    limbs@[0] as int + limbs@[1] as int * 0x1_0000_0000_0000_0000int
        + limbs@[2] as int * 0x1_0000_0000_0000_0000_0000_0000_0000_0000int
        + limbs@[3] as int * 0x1_0000_0000_0000_0000_0000_0000_0000_0000_0000_0000_0000_0000int
}

/// `p` has no divisor but one and itself.
pub open spec fn is_prime(p: int) -> bool {
    &&& 1 < p
    &&& forall|d: int| 1 < d < p ==> #[trigger] (p % d) != 0
}

/// The inverse of `x`, for `x` invertible.
pub open spec fn inverse(x: int) -> int {
    choose|y: int| 0 <= y < modulus() && #[trigger] fe(x * y) == 1
}

/// The number that an optional element stands for.
pub open spec fn opt_value(x: Option<Fr>) -> Option<int> {
    match x {
        Some(v) => Some(v@),
        None => None,
    }
}

/// An element of the scalar field.
#[derive(Clone, Copy, Debug)]
pub struct Fr {
    pub(crate) limbs: [u64; 4],
}

impl View for Fr {
    type V = int;

    closed spec fn view(&self) -> int {
        limbs_value(self.limbs)
    }
}

/// `Field::add_assign`, for the field type of the pairing library: the sum of
/// two elements.
#[verifier::external_body]
fn sum_of(a: Fr, b: Fr) -> (r: Fr)
    requires
        a@ < modulus(),
        b@ < modulus(),
    ensures
        r@ == fe(a@ + b@),
{
    let mut x = bls12_381::Fr::from_repr(bls12_381::FrRepr(a.limbs)).unwrap();
    x.add_assign(&bls12_381::Fr::from_repr(bls12_381::FrRepr(b.limbs)).unwrap());
    Fr { limbs: x.into_repr().0 }
}

/// `Field::sub_assign`, for the field type of the pairing library: the
/// difference of two elements.
#[verifier::external_body]
fn difference_of(a: Fr, b: Fr) -> (r: Fr)
    requires
        a@ < modulus(),
        b@ < modulus(),
    ensures
        r@ == fe(a@ - b@),
{
    let mut x = bls12_381::Fr::from_repr(bls12_381::FrRepr(a.limbs)).unwrap();
    x.sub_assign(&bls12_381::Fr::from_repr(bls12_381::FrRepr(b.limbs)).unwrap());
    Fr { limbs: x.into_repr().0 }
}

/// `Field::mul_assign`, for the field type of the pairing library: the product
/// of two elements.
#[verifier::external_body]
fn product_of(a: Fr, b: Fr) -> (r: Fr)
    requires
        a@ < modulus(),
        b@ < modulus(),
    ensures
        r@ == fe(a@ * b@),
{
    let mut x = bls12_381::Fr::from_repr(bls12_381::FrRepr(a.limbs)).unwrap();
    x.mul_assign(&bls12_381::Fr::from_repr(bls12_381::FrRepr(b.limbs)).unwrap());
    Fr { limbs: x.into_repr().0 }
}

/// `Field::double`, for the field type of the pairing library: twice an element.
#[verifier::external_body]
fn double_of(a: Fr) -> (r: Fr)
    requires
        a@ < modulus(),
    ensures
        r@ == fe(2 * a@),
{
    let mut x = bls12_381::Fr::from_repr(bls12_381::FrRepr(a.limbs)).unwrap();
    x.double();
    Fr { limbs: x.into_repr().0 }
}

/// `Field::inverse`, for the field type of the pairing library: the
/// multiplicative inverse of an element, which exists just when the element is
/// not zero.
#[verifier::external_body]
fn inverse_of(a: Fr) -> (r: Option<Fr>)
    requires
        a@ < modulus(),
    ensures
        r is None <==> a@ == 0,
        r matches Some(x) ==> 0 <= x@ < modulus() && fe(a@ * x@) == 1,
{
    let x = bls12_381::Fr::from_repr(bls12_381::FrRepr(a.limbs)).unwrap();
    x.inverse().map(|y| Fr { limbs: y.into_repr().0 })
}

/// `PrimeField::from_str`, for the field type of the pairing library: the
/// residue of the number that a decimal string writes; a blank string, a
/// character that is no decimal digit and a superfluous leading zero are
/// refused.
#[verifier::external_body]
fn parsed_from(s: &str) -> (r: Option<Fr>)
    ensures
        r is Some <==> is_decimal(s@),
        r matches Some(x) ==> x@ == fe(decimal_value(s@)),
{
    bls12_381::Fr::from_str(s).map(|x| Fr { limbs: x.into_repr().0 })
}

/// `PrimeField::from_repr`, for the field type of the pairing library: the
/// element of which a number is the canonical representative; a number that is
/// not less than the order of the field is refused.
#[verifier::external_body]
fn represented_by(limbs: [u64; 4]) -> (r: Option<Fr>)
    ensures
        r is Some <==> limbs_value(limbs) < modulus(),
        r matches Some(x) ==> x@ == limbs_value(limbs),
{
    let x = bls12_381::Fr::from_repr(bls12_381::FrRepr(limbs)).ok();
    x.map(|y| Fr { limbs: y.into_repr().0 })
}

/// `PrimeField::char`, for the field type of the pairing library: the
/// characteristic of the field, which is a prime number.
#[verifier::external_body]
fn characteristic() -> (r: [u64; 4])
    ensures
        limbs_value(r) == modulus(),
        is_prime(limbs_value(r)),
{
    bls12_381::Fr::char().0
}

/// `PrimeFieldRepr::sub_noborrow`, for the limbs of the scalar field: the
/// difference of two numbers.
#[verifier::external_body]
fn limbs_difference(a: [u64; 4], b: [u64; 4]) -> (r: [u64; 4])
    requires
        limbs_value(b) <= limbs_value(a),
    ensures
        limbs_value(r) == limbs_value(a) - limbs_value(b),
{
    let mut x = bls12_381::FrRepr(a);
    x.sub_noborrow(&bls12_381::FrRepr(b));
    x.0
}

/// `BitIterator`, for the limbs of the scalar field: every bit of the limbs, the
/// most significant one first.
#[verifier::external_body]
fn limbs_bits(limbs: [u64; 4]) -> (r: Vec<bool>)
    ensures
        r@ == bits_be(limbs_value(limbs)),
{
    BitIterator::new(limbs).collect()
}

impl Fr {
    #[verifier::type_invariant]
    pub open spec fn canonical(self) -> bool {
        0 <= self@ < modulus()
    }

    /// The additive identity.
    pub fn zero() -> (r: Fr)
        ensures
            r@ == 0,
    {
        Fr { limbs: [0, 0, 0, 0] }
    }

    /// The multiplicative identity.
    pub fn one() -> (r: Fr)
        ensures
            r@ == 1,
    {
        Fr { limbs: [1, 0, 0, 0] }
    }

    /// Whether this is the additive identity.
    pub fn is_zero(&self) -> (r: bool)
        ensures
            r == (self@ == 0),
    {
        self.limbs[0] == 0 && self.limbs[1] == 0 && self.limbs[2] == 0 && self.limbs[3] == 0
    }

    /// Doubles this element.
    pub fn double(&mut self)
        ensures
            final(self)@ == fe(2 * old(self)@),
    {
        proof {
            use_type_invariant(&*self);
        }
        *self = double_of(*self);
    }

    /// Adds `other` to this element.
    pub fn add_assign(&mut self, other: &Fr)
        ensures
            final(self)@ == fe(old(self)@ + other@),
    {
        proof {
            use_type_invariant(&*self);
            use_type_invariant(other);
        }
        *self = sum_of(*self, *other);
    }

    /// Subtracts `other` from this element.
    pub fn sub_assign(&mut self, other: &Fr)
        ensures
            final(self)@ == fe(old(self)@ - other@),
    {
        proof {
            use_type_invariant(&*self);
            use_type_invariant(other);
        }
        *self = difference_of(*self, *other);
    }

    /// Multiplies this element by `other`.
    pub fn mul_assign(&mut self, other: &Fr)
        ensures
            final(self)@ == fe(old(self)@ * other@),
    {
        proof {
            use_type_invariant(&*self);
            use_type_invariant(other);
        }
        *self = product_of(*self, *other);
    }

    /// The multiplicative inverse of this element, unless it is zero.
    pub fn inverse(&self) -> (r: Option<Fr>)
        ensures
            r is None <==> self@ == 0,
            r matches Some(x) ==> x@ == inverse(self@) && fe(self@ * x@) == 1,
    {
        proof {
            use_type_invariant(self);
        }
        let r = inverse_of(*self);
        proof {
            if let Some(x) = r {
                lemma_inverse_unique(self@, x@);
            }
        }
        r
    }

    /// Reads an element from its decimal digits.
    pub fn from_str(s: &str) -> (r: Option<Fr>)
        ensures
            r is Some <==> is_decimal(s@),
            r matches Some(x) ==> x@ == fe(decimal_value(s@)),
    {
        parsed_from(s)
    }

    /// The element with this canonical representative, where it is one.
    pub fn from_repr(limbs: [u64; 4]) -> (r: Option<Fr>)
        ensures
            r is Some <==> limbs_value(limbs) < modulus(),
            r matches Some(x) ==> x@ == limbs_value(limbs),
    {
        represented_by(limbs)
    }

    /// The limbs of the canonical representative.
    pub fn into_repr(&self) -> (r: [u64; 4])
        ensures
            limbs_value(r) == self@,
            0 <= self@ < modulus(),
    {
        proof {
            use_type_invariant(self);
        }
        self.limbs
    }

    /// The limbs of the order of the field, which is a prime number.
    pub fn char() -> (r: [u64; 4])
        ensures
            limbs_value(r) == modulus(),
            is_prime(modulus()),
    {
        characteristic()
    }
}

impl PartialEq for Fr {
    fn eq(&self, other: &Fr) -> (r: bool) {
        self.limbs[0] == other.limbs[0] && self.limbs[1] == other.limbs[1] && self.limbs[2]
            == other.limbs[2] && self.limbs[3] == other.limbs[3]
    }
}

impl vstd::std_specs::cmp::PartialEqSpecImpl for Fr {
    open spec fn obeys_eq_spec() -> bool {
        true
    }

    open spec fn eq_spec(&self, other: &Fr) -> bool {
        self@ == other@
    }
}

/// The limbs of the greatest representative, one below the order of the field.
pub fn greatest_repr() -> (r: [u64; 4])
    ensures
        limbs_value(r) == modulus() - 1,
{
    limbs_difference(Fr::char(), [1, 0, 0, 0])
}

/// The bits of four limbs, the most significant one first.
pub fn repr_bits(limbs: [u64; 4]) -> (r: Vec<bool>)
    ensures
        r@ == bits_be(limbs_value(limbs)),
{
    limbs_bits(limbs)
}

} // verus!
