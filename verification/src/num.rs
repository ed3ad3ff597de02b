//! Variables that hold a number, and sums of them.

use vstd::arithmetic::div_mod::lemma_add_mod_noop_right;
use vstd::prelude::*;

use crate::boolean::Boolean;
use crate::boolean::boolean_terms;
use crate::constraint_system::{ConstraintSystem, SynthesisError, SystemView};
use crate::fr::{fe, modulus, opt_value, Fr};
use crate::linear_combination::{scaled, LinearCombination, Term, Variable};

verus! {

/// A variable and the number that it holds, where it is known.
pub struct AllocatedNumView {
    pub variable: Variable,
    pub value: Option<int>,
}

/// A linear combination and its value, where it is known.
#[verifier::ext_equal]
pub struct LinearView {
    pub value: Option<int>,
    pub terms: Seq<Term>,
}

/// The outcome of the allocation of a number.
pub open spec fn num_allocated(cs: SystemView, value: Option<int>) -> (
    SystemView,
    Result<AllocatedNumView, SynthesisError>,
) {
    if cs.lacks(value) {
        (cs, Err(SynthesisError::AssignmentMissing))
    } else {
        (
            cs.grown(seq![cs.allocation(seq!["num"@], value)], Seq::empty()),
            Ok(AllocatedNumView { variable: cs.fresh(0), value: cs.kept(value) }),
        )
    }
}

/// The view of an outcome.
pub open spec fn num_view(r: Result<AllocatedNum, SynthesisError>) -> Result<
    AllocatedNumView,
    SynthesisError,
> {
    match r {
        Ok(num) => Ok(num@),
        Err(e) => Err(e),
    }
}

/// A variable that holds a number.
#[derive(Clone, Copy, Debug)]
pub struct AllocatedNum {
    value: Option<Fr>,
    variable: Variable,
}

impl View for AllocatedNum {
    type V = AllocatedNumView;

    closed spec fn view(&self) -> AllocatedNumView {
        AllocatedNumView { variable: self.variable, value: opt_value(self.value) }
    }
}

impl AllocatedNum {
    /// Allocates a variable for a number.
    pub fn allocate(cs: &mut ConstraintSystem, value: Option<Fr>) -> (r: Result<
        AllocatedNum,
        SynthesisError,
    >)
        ensures
            (final(cs)@, num_view(r)) == num_allocated(old(cs)@, opt_value(value)),
    {
        match cs.allocate("num", value) {
            Ok(variable) => {
                let value = if cs.evaluates() {
                    value
                } else {
                    None
                };
                Ok(AllocatedNum { value, variable })
            },
            Err(e) => Err(e),
        }
    }

    /// The number that the variable holds, where it is known.
    pub fn get_value(&self) -> (r: Option<Fr>)
        ensures
            opt_value(r) == self@.value,
    {
        self.value
    }

    /// The variable.
    pub fn get_variable(&self) -> (r: Variable)
        ensures
            r == self@.variable,
    {
        self.variable
    }
}

/// A sum of variables with coefficients.
pub struct Num {
    value: Option<Fr>,
    lc: LinearCombination,
}

impl View for Num {
    type V = LinearView;

    closed spec fn view(&self) -> LinearView {
        LinearView { value: opt_value(self.value), terms: self.lc@ }
    }
}

/// A sum with a multiple of a bit added.
pub open spec fn with_bool(num: LinearView, one: Variable, bit: Boolean, coeff: int) -> LinearView {
    LinearView {
        value: match (num.value, bit.value()) {
            (Some(v), Some(b)) => Some(
                if b {
                    fe(v + coeff)
                } else {
                    v
                },
            ),
            _ => None,
        },
        terms: num.terms + boolean_terms(bit, one, coeff),
    }
}

/// A sum with a multiple of a variable added.
pub open spec fn with_number(num: LinearView, variable: AllocatedNumView, coeff: int) -> LinearView {
    LinearView {
        value: match (num.value, variable.value) {
            (Some(v), Some(n)) => Some(fe(v + n * coeff)),
            _ => None,
        },
        terms: num.terms.push((variable.variable, coeff)),
    }
}

impl Num {
    /// The empty sum.
    pub fn zero() -> (r: Num)
        ensures
            r@ == (LinearView { value: Some(0), terms: Seq::empty() }),
    {
        Num { value: Some(Fr::zero()), lc: LinearCombination::zero() }
    }

    /// The value of the sum, where it is known.
    pub fn get_value(&self) -> (r: Option<Fr>)
        ensures
            opt_value(r) == self@.value,
    {
        self.value
    }

    /// A multiple of the sum, as a linear combination.
    pub fn lc(&self, coeff: Fr) -> (r: LinearCombination)
        ensures
            r@ == scaled(self@.terms, coeff@),
    {
        LinearCombination::zero().add_scaled(coeff, &self.lc)
    }

    /// Adds a multiple of a variable.
    pub fn add_number_with_coeff(self, variable: &AllocatedNum, coeff: Fr) -> (r: Num)
        ensures
            r@ == with_number(self@, variable@, coeff@),
    {
        let value = match (self.value, variable.get_value()) {
            (Some(v), Some(n)) => {
                let mut sum = v;
                let mut product = n;
                product.mul_assign(&coeff);
                sum.add_assign(&product);
                proof {
                    lemma_add_mod_noop_right(v@, n@ * coeff@, modulus());
                }
                Some(sum)
            },
            _ => None,
        };
        Num { value, lc: self.lc.add_term(coeff, variable.get_variable()) }
    }

    /// Adds a multiple of a bit.
    pub fn add_bool_with_coeff(self, one: Variable, bit: &Boolean, coeff: Fr) -> (r: Num)
        ensures
            r@ == with_bool(self@, one, *bit, coeff@),
    {
        let value = match (self.value, bit.get_value()) {
            (Some(v), Some(b)) => {
                let mut sum = v;
                if b {
                    sum.add_assign(&coeff);
                }
                Some(sum)
            },
            _ => None,
        };
        Num { value, lc: self.lc.add_all(&bit.lc(one, coeff)) }
    }
}

} // verus!
