//! How the value of a linear combination follows from its parts.

use vstd::prelude::*;

use crate::boolean::{boolean_terms, Boolean};
use crate::expression::difference_terms;
use crate::field_lemmas::{
    lemma_fe_difference, lemma_fe_product, lemma_fe_range, lemma_fe_small, lemma_fe_sum,
};
use crate::fr::{fe, modulus};
use crate::linear_combination::{eval, negated, scaled, Assignment, Term, Variable};

verus! {

/// The value of a linear combination is a field element.
pub proof fn lemma_eval_range(terms: Seq<Term>, w: Assignment)
    ensures
        0 <= eval(terms, w) < modulus(),
{
    if terms.len() > 0 {
        lemma_fe_range(eval(terms.drop_last(), w) + terms.last().1 * w(terms.last().0));
    }
}

/// One more term adds its product.
pub proof fn lemma_eval_push(terms: Seq<Term>, var: Variable, coeff: int, w: Assignment)
    ensures
        eval(terms.push((var, coeff)), w) == fe(eval(terms, w) + coeff * w(var)),
{
    assert(terms.push((var, coeff)).drop_last() =~= terms);
}

/// The value of a single term is its product.
pub proof fn lemma_eval_single(var: Variable, coeff: int, w: Assignment)
    ensures
        eval(seq![(var, coeff)], w) == fe(coeff * w(var)),
{
    lemma_eval_push(Seq::empty(), var, coeff, w);
    assert(Seq::<Term>::empty().push((var, coeff)) =~= seq![(var, coeff)]);
}

/// The value of a variable is what it holds.
pub proof fn lemma_eval_variable(var: Variable, w: Assignment)
    requires
        0 <= w(var) < modulus(),
    ensures
        eval(seq![(var, 1int)], w) == w(var),
{
    lemma_eval_single(var, 1, w);
    lemma_fe_small(w(var));
}

/// Assignments that agree on the variables of a linear combination give it the
/// same value.
pub proof fn lemma_eval_agrees(terms: Seq<Term>, w: Assignment, u: Assignment)
    requires
        forall|i: int| 0 <= i < terms.len() ==> w(#[trigger] terms[i].0) == u(terms[i].0),
    ensures
        eval(terms, w) == eval(terms, u),
    decreases terms.len(),
{
    if terms.len() > 0 {
        let rest = terms.drop_last();
        assert forall|i: int| 0 <= i < rest.len() implies w(#[trigger] rest[i].0) == u(
            rest[i].0,
        ) by {
            assert(rest[i] == terms[i]);
        }
        lemma_eval_agrees(rest, w, u);
        assert(w(terms[terms.len() - 1].0) == u(terms[terms.len() - 1].0));
    }
}

/// The value of a sum is the sum of the values.
pub proof fn lemma_eval_sum(a: Seq<Term>, b: Seq<Term>, w: Assignment)
    ensures
        eval(a + b, w) == fe(eval(a, w) + eval(b, w)),
    decreases b.len(),
{
    if b.len() == 0 {
        assert(a + b =~= a);
        lemma_eval_range(a, w);
        lemma_fe_small(eval(a, w));
    } else {
        let (var, coeff) = b.last();
        assert((a + b).drop_last() =~= a + b.drop_last());
        lemma_eval_sum(a, b.drop_last(), w);
        let x = eval(a, w);
        let y = eval(b.drop_last(), w);
        let z = coeff * w(var);
        lemma_fe_sum(x + y, z);
        lemma_fe_sum(x, y + z);
    }
}

/// The value of a multiple is the multiple of the value.
pub proof fn lemma_eval_scaled(terms: Seq<Term>, k: int, w: Assignment)
    ensures
        eval(scaled(terms, k), w) == fe(eval(terms, w) * k),
    decreases terms.len(),
{
    if terms.len() > 0 {
        let (var, coeff) = terms.last();
        let rest = terms.drop_last();
        assert(scaled(terms, k).drop_last() =~= scaled(rest, k));
        lemma_eval_scaled(rest, k, w);
        let x = eval(rest, w);
        let v = w(var);
        // fe(fe(x * k) + fe(coeff * k) * v) == fe(fe(x + coeff * v) * k)
        lemma_fe_product(coeff * k, v);
        lemma_fe_sum(x * k, (coeff * k) * v);
        lemma_fe_sum(fe(x * k), fe(coeff * k) * v);
        lemma_fe_product(x + coeff * v, k);
        assert((x + coeff * v) * k == x * k + (coeff * k) * v) by (nonlinear_arith);
    } else {
        assert(0 * k == 0) by (nonlinear_arith);
    }
}

/// A multiple by one has the same value.
pub proof fn lemma_eval_unscaled(terms: Seq<Term>, w: Assignment)
    ensures
        eval(scaled(terms, 1), w) == eval(terms, w),
{
    lemma_eval_scaled(terms, 1, w);
    lemma_eval_range(terms, w);
    lemma_fe_small(eval(terms, w));
}

/// The value of a negation is the negation of the value.
pub proof fn lemma_eval_negated(terms: Seq<Term>, w: Assignment)
    ensures
        eval(negated(terms), w) == fe(-eval(terms, w)),
    decreases terms.len(),
{
    if terms.len() > 0 {
        let (var, coeff) = terms.last();
        let rest = terms.drop_last();
        assert(negated(terms).drop_last() =~= negated(rest));
        lemma_eval_negated(rest, w);
        let x = eval(rest, w);
        let v = w(var);
        // fe(fe(-x) + fe(-coeff) * v) == fe(-fe(x + coeff * v))
        lemma_fe_product(-coeff, v);
        lemma_fe_sum(-x, -coeff * v);
        lemma_fe_sum(fe(-x), fe(-coeff) * v);
        lemma_fe_difference(0, x + coeff * v);
        assert(-coeff * v == -(coeff * v)) by (nonlinear_arith);
    }
}

/// The value of a difference is the difference of the values.
pub proof fn lemma_eval_difference(a: Seq<Term>, b: Seq<Term>, w: Assignment)
    ensures
        eval(a + negated(b), w) == fe(eval(a, w) - eval(b, w)),
        eval(difference_terms(a, b), w) == fe(eval(a, w) - eval(b, w)),
{
    lemma_eval_sum(a, negated(b), w);
    lemma_eval_negated(b, w);
    lemma_fe_sum(eval(a, w), -eval(b, w));
    lemma_eval_sum(scaled(a, 1), negated(scaled(b, 1)), w);
    lemma_eval_negated(scaled(b, 1), w);
    lemma_eval_unscaled(a, w);
    lemma_eval_unscaled(b, w);
}

/// The value of a bit with a coefficient is the product of the two.
pub proof fn lemma_eval_boolean(b: Boolean, coeff: int, w: Assignment)
    requires
        w(Variable::spec_one()) == 1,
    ensures
        eval(boolean_terms(b, Variable::spec_one(), coeff), w) == fe(
            coeff * eval(boolean_terms(b, Variable::spec_one(), 1), w),
        ),
{
    let one = Variable::spec_one();
    match b {
        Boolean::Constant(c) => {
            if c {
                lemma_eval_single(one, coeff, w);
                lemma_eval_single(one, 1, w);
            }
        },
        Boolean::Is(v) => {
            lemma_eval_single(v.variable, coeff, w);
            lemma_eval_single(v.variable, 1, w);
            lemma_fe_product(coeff, w(v.variable));
        },
        Boolean::Not(v) => {
            let x = w(v.variable);
            lemma_eval_negation(v.variable, coeff, w);
            lemma_eval_negation(v.variable, 1, w);
            lemma_fe_product(coeff, 1 - x);
            assert(coeff * (1 - x) == coeff - coeff * x) by (nonlinear_arith);
        },
    }
}

/// The value of the negation of a bit with a coefficient.
proof fn lemma_eval_negation(var: Variable, coeff: int, w: Assignment)
    requires
        w(Variable::spec_one()) == 1,
    ensures
        eval(seq![(Variable::spec_one(), coeff), (var, fe(-coeff))], w) == fe(
            coeff - coeff * w(var),
        ),
{
    let one = Variable::spec_one();
    let x = w(var);
    lemma_eval_single(one, coeff, w);
    lemma_eval_push(seq![(one, coeff)], var, fe(-coeff), w);
    assert(seq![(one, coeff)].push((var, fe(-coeff))) =~= seq![(one, coeff), (var, fe(-coeff))]);
    lemma_fe_product(-coeff, x);
    assert(-coeff * x == -(coeff * x)) by (nonlinear_arith);
    lemma_fe_sum(coeff, fe(-coeff) * x);
    lemma_fe_sum(coeff, -coeff * x);
}

} // verus!
