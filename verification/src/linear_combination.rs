//! Variables of a circuit and linear combinations of them.

use bellman_ce::pairing::bls12_381;
use bellman_ce::pairing::ff::PrimeField;
use bellman_ce::Index;
use vstd::prelude::*;

use crate::fr::{fe, modulus, Fr};

verus! {

/// A variable of a circuit: a public input or an auxiliary one. The input of
/// index zero always holds one.
#[derive(Clone, Copy, Debug, PartialEq, Eq, Structural)]
pub enum Variable {
    Input(usize),
    Aux(usize),
}

/// A variable with its coefficient.
pub type Term = (Variable, int);

impl Variable {
    /// The input that always holds one.
    pub open spec fn spec_one() -> Variable {
        Variable::Input(0)
    }

    /// The input that always holds one.
    pub fn one() -> (r: Variable)
        ensures
            r == Variable::spec_one(),
    {
        Variable::Input(0)
    }
}

/// The value that each variable holds.
pub type Assignment = spec_fn(Variable) -> int;

/// Whether every variable holds a field element, and the first input one.
pub open spec fn is_assignment(w: Assignment) -> bool {
    &&& w(Variable::spec_one()) == 1
    &&& forall|var: Variable| 0 <= #[trigger] w(var) < modulus()
}

/// The value of a linear combination under an assignment.
pub open spec fn eval(terms: Seq<Term>, w: Assignment) -> int
    decreases terms.len(),
{
    if terms.len() == 0 {
        0
    } else {
        fe(eval(terms.drop_last(), w) + terms.last().1 * w(terms.last().0))
    }
}

/// The terms with every coefficient multiplied by `k`.
pub open spec fn scaled(terms: Seq<Term>, k: int) -> Seq<Term> {
    Seq::new(terms.len(), |i: int| (terms[i].0, fe(terms[i].1 * k)))
}

/// The terms with every coefficient negated.
pub open spec fn negated(terms: Seq<Term>) -> Seq<Term> {
    Seq::new(terms.len(), |i: int| (terms[i].0, fe(-terms[i].1)))
}

/// A linear combination of variables, as the proving library keeps it.
#[verifier::external_body]
pub struct LinearCombination {
    inner: bellman_ce::LinearCombination<bls12_381::Bls12>,
}

/// The terms that a linear combination holds, in order.
pub uninterp spec fn lc_terms(lc: LinearCombination) -> Seq<Term>;

impl View for LinearCombination {
    type V = Seq<Term>;

    open spec fn view(&self) -> Seq<Term> {
        lc_terms(*self)
    }
}

/// `LinearCombination::zero` of the proving library: no terms.
#[verifier::external_body]
fn no_terms() -> (r: LinearCombination)
    ensures
        lc_terms(r) == Seq::<Term>::empty(),
{
    LinearCombination { inner: bellman_ce::LinearCombination::zero() }
}

/// `LinearCombination + (coefficient, Variable)` of the proving library: the
/// term goes to the end.
#[verifier::external_body]
fn with_term(lc: LinearCombination, coeff: Fr, var: Variable) -> (r: LinearCombination)
    requires
        coeff@ < modulus(),
    ensures
        lc_terms(r) == lc_terms(lc).push((var, coeff@)),
{
    let index = match var {
        Variable::Input(i) => Index::Input(i),
        Variable::Aux(i) => Index::Aux(i),
    };
    let var = bellman_ce::Variable::new_unchecked(index);
    let coeff = bls12_381::Fr::from_repr(bls12_381::FrRepr(coeff.limbs)).unwrap();
    LinearCombination { inner: lc.inner + (coeff, var) }
}

/// `LinearCombination - (coefficient, Variable)` of the proving library: the
/// term goes to the end with its coefficient negated.
#[verifier::external_body]
fn without_term(lc: LinearCombination, coeff: Fr, var: Variable) -> (r: LinearCombination)
    requires
        coeff@ < modulus(),
    ensures
        lc_terms(r) == lc_terms(lc).push((var, fe(-coeff@))),
{
    let index = match var {
        Variable::Input(i) => Index::Input(i),
        Variable::Aux(i) => Index::Aux(i),
    };
    let var = bellman_ce::Variable::new_unchecked(index);
    let coeff = bls12_381::Fr::from_repr(bls12_381::FrRepr(coeff.limbs)).unwrap();
    LinearCombination { inner: lc.inner - (coeff, var) }
}

/// `LinearCombination + Variable` of the proving library: the variable goes to
/// the end with the coefficient one.
#[verifier::external_body]
fn with_variable(lc: LinearCombination, var: Variable) -> (r: LinearCombination)
    ensures
        lc_terms(r) == lc_terms(lc).push((var, 1)),
{
    let index = match var {
        Variable::Input(i) => Index::Input(i),
        Variable::Aux(i) => Index::Aux(i),
    };
    let var = bellman_ce::Variable::new_unchecked(index);
    LinearCombination { inner: lc.inner + var }
}

/// `LinearCombination - Variable` of the proving library: the variable goes to
/// the end with the coefficient minus one.
#[verifier::external_body]
fn without_variable(lc: LinearCombination, var: Variable) -> (r: LinearCombination)
    ensures
        lc_terms(r) == lc_terms(lc).push((var, fe(-1))),
{
    let index = match var {
        Variable::Input(i) => Index::Input(i),
        Variable::Aux(i) => Index::Aux(i),
    };
    let var = bellman_ce::Variable::new_unchecked(index);
    LinearCombination { inner: lc.inner - var }
}

/// `LinearCombination + &LinearCombination` of the proving library: the terms of
/// the second go behind those of the first.
#[verifier::external_body]
fn with_all(lc: LinearCombination, other: &LinearCombination) -> (r: LinearCombination)
    ensures
        lc_terms(r) == lc_terms(lc) + lc_terms(*other),
{
    LinearCombination { inner: lc.inner + &other.inner }
}

/// `LinearCombination - &LinearCombination` of the proving library: the terms of
/// the second go behind those of the first, with their coefficients negated.
#[verifier::external_body]
fn without_all(lc: LinearCombination, other: &LinearCombination) -> (r: LinearCombination)
    ensures
        lc_terms(r) == lc_terms(lc) + negated(lc_terms(*other)),
{
    LinearCombination { inner: lc.inner - &other.inner }
}

/// `LinearCombination + (coefficient, &LinearCombination)` of the proving
/// library: the terms of the second go behind those of the first, with their
/// coefficients multiplied.
#[verifier::external_body]
fn with_all_scaled(lc: LinearCombination, coeff: Fr, other: &LinearCombination) -> (r: LinearCombination)
    requires
        coeff@ < modulus(),
    ensures
        lc_terms(r) == lc_terms(lc) + scaled(lc_terms(*other), coeff@),
{
    let coeff = bls12_381::Fr::from_repr(bls12_381::FrRepr(coeff.limbs)).unwrap();
    LinearCombination { inner: lc.inner + (coeff, &other.inner) }
}

/// `LinearCombination::as_ref` of the proving library: the terms, in order.
#[verifier::external_body]
fn listed(lc: &LinearCombination) -> (r: Vec<(Variable, Fr)>)
    ensures
        r@.len() == lc_terms(*lc).len(),
        forall|i: int|
            0 <= i < r@.len() ==> (#[trigger] r@[i]).0 == lc_terms(*lc)[i].0 && r@[i].1@
                == lc_terms(*lc)[i].1,
{
    let convert = |term: &(bellman_ce::Variable, bls12_381::Fr)| {
        let var = match term.0.get_unchecked() {
            Index::Input(i) => Variable::Input(i),
            Index::Aux(i) => Variable::Aux(i),
        };
        (var, Fr { limbs: term.1.into_repr().0 })
    };
    lc.inner.as_ref().iter().map(convert).collect()
}

impl Clone for LinearCombination {
    /// `LinearCombination::clone` of the proving library: the same terms.
    #[verifier::external_body]
    fn clone(&self) -> (r: LinearCombination)
        ensures
            r@ == self@,
    {
        LinearCombination { inner: self.inner.clone() }
    }
}

impl LinearCombination {
    /// No terms.
    pub fn zero() -> (r: LinearCombination)
        ensures
            r@ == Seq::<Term>::empty(),
    {
        no_terms()
    }

    /// One more term.
    pub fn add_term(self, coeff: Fr, var: Variable) -> (r: LinearCombination)
        ensures
            r@ == self@.push((var, coeff@)),
    {
        proof {
            use_type_invariant(&coeff);
        }
        with_term(self, coeff, var)
    }

    /// One term less.
    pub fn sub_term(self, coeff: Fr, var: Variable) -> (r: LinearCombination)
        ensures
            r@ == self@.push((var, fe(-coeff@))),
    {
        proof {
            use_type_invariant(&coeff);
        }
        without_term(self, coeff, var)
    }

    /// One more variable, with the coefficient one.
    pub fn add_variable(self, var: Variable) -> (r: LinearCombination)
        ensures
            r@ == self@.push((var, 1)),
    {
        with_variable(self, var)
    }

    /// One variable less.
    pub fn sub_variable(self, var: Variable) -> (r: LinearCombination)
        ensures
            r@ == self@.push((var, fe(-1))),
    {
        without_variable(self, var)
    }

    /// The sum of two linear combinations.
    pub fn add_all(self, other: &LinearCombination) -> (r: LinearCombination)
        ensures
            r@ == self@ + other@,
    {
        with_all(self, other)
    }

    /// The difference of two linear combinations.
    pub fn sub_all(self, other: &LinearCombination) -> (r: LinearCombination)
        ensures
            r@ == self@ + negated(other@),
    {
        without_all(self, other)
    }

    /// The sum of a linear combination and a multiple of another.
    pub fn add_scaled(self, coeff: Fr, other: &LinearCombination) -> (r: LinearCombination)
        ensures
            r@ == self@ + scaled(other@, coeff@),
    {
        proof {
            use_type_invariant(&coeff);
        }
        with_all_scaled(self, coeff, other)
    }

    /// The terms, in order.
    pub fn terms(&self) -> (r: Vec<(Variable, Fr)>)
        ensures
            r@.len() == self@.len(),
            forall|i: int|
                0 <= i < r@.len() ==> (#[trigger] r@[i]).0 == self@[i].0 && r@[i].1@ == self@[i].1,
    {
        listed(self)
    }
}

} // verus!
