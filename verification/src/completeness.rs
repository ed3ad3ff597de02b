//! That the recorded values satisfy the constraints: what holds of honest
//! expressions, whose values are those of their linear combinations.

use vstd::arithmetic::power2::pow2;
use vstd::prelude::*;

use crate::bits::{bit, bits_le, lemma_powers_around_modulus};
use crate::boolean::{
    bit_name, bits_allocated, boolean_constraint, boolean_terms, opt_bit_value, AllocatedBit,
    Boolean,
};
use crate::constraint_system::{added_hold, SynthesisError, SystemView};
use crate::evaluation::{lemma_eval_agrees, lemma_eval_difference, lemma_eval_range, lemma_eval_sum};
use crate::expression::{
    as_booleans, bits_outcome, difference_of, difference_terms, equals_outcome, first_reversed,
    limit_outcome, of_constant, of_variable, opt_choice, packed_terms, packed_value,
    reverse_outcome, select_ifeq_outcome, select_outcome, sum_of, unpacking_constraint, weight,
    weighted_terms,
};
use crate::field_lemmas::{lemma_fe_difference, lemma_fe_small};
use crate::fr::{fe, is_prime, modulus, NUM_BITS};
use crate::linear_combination::{eval, is_assignment, negated, scaled, Assignment, Term, Variable};
use crate::num::{num_allocated, with_bool, with_number, AllocatedNumView, LinearView};
use crate::soundness::truths;
use crate::witness::{
    allocated_number_is_true, bit_is_true, bits_are_met, bool_is_added_truly,
    congruent_bits_are_met, constant_bit_is_true, constant_is_true, difference_is_true,
    equals_is_met, limit_is_met, newer, number_is_added_truly, of_boolean, packed_bits_are_true,
    recorded, reverse_is_met, select_is_met, sum_is_true, true_under, unscaled_is_true,
    with_bits_of,
};

verus! {

/// Whether the variables of an expression are assigned, and its value, where it
/// is known, is that of its linear combination.
pub open spec fn honest(cs: SystemView, e: LinearView) -> bool {
    &&& cs.covers(e.terms)
    &&& true_under(e, cs.assignment())
}

/// The values of linear combinations do not change as a record grows.
pub proof fn lemma_kept_value(cs: SystemView, later: SystemView, terms: Seq<Term>)
    requires
        cs.aux.is_prefix_of(later.aux),
        cs.covers(terms),
    ensures
        later.covers(terms),
        eval(terms, later.assignment()) == eval(terms, cs.assignment()),
    decreases terms.len(),
{
    if terms.len() > 0 {
        let rest = terms.drop_last();
        let m = terms.len() - 1;
        assert forall|i: int| 0 <= i < rest.len() implies cs.assigned(#[trigger] rest[i].0) by {
            assert(rest[i] == terms[i]);
        }
        lemma_kept_value(cs, later, rest);
        assert(cs.assigned(terms[m].0));
        lemma_kept_assignment(cs, later, terms[m].0);
        assert forall|i: int| 0 <= i < terms.len() implies later.assigned(#[trigger] terms[i].0) by {
            if i < m {
                assert(rest[i] == terms[i]);
            }
        }
    }
}

/// The values of variables do not change as a record grows.
pub proof fn lemma_kept_assignment(cs: SystemView, later: SystemView, var: Variable)
    requires
        cs.aux.is_prefix_of(later.aux),
        cs.assigned(var),
    ensures
        later.assigned(var),
        (later.assignment())(var) == (cs.assignment())(var),
{
    if let Variable::Aux(i) = var {
        assert(later.aux[i as int] == cs.aux[i as int]);
    }
}

/// An honest expression stays honest as the record grows.
pub proof fn honest_stays_honest(cs: SystemView, later: SystemView, e: LinearView)
    requires
        cs.grows_to(later),
        honest(cs, e),
    ensures
        honest(later, e),
{
    lemma_kept_value(cs, later, e.terms);
}

/// A record that grows by constraints that are met stays satisfied.
pub proof fn lemma_still_satisfied(cs: SystemView, later: SystemView)
    requires
        cs.satisfied(),
        cs.grows_to(later),
        forall|i: int|
            cs.constraints.len() <= i < later.constraints.len() ==> later.meets(
                #[trigger] later.constraints[i],
            ),
    ensures
        later.satisfied(),
{
    assert forall|i: int| 0 <= i < later.constraints.len() implies later.meets(
        #[trigger] later.constraints[i],
    ) by {
        if i < cs.constraints.len() {
            let c = cs.constraints[i];
            assert(later.constraints[i] == c);
            assert(cs.meets(c));
            lemma_kept_value(cs, later, c.a);
            lemma_kept_value(cs, later, c.b);
            lemma_kept_value(cs, later, c.c);
        }
    }
}

/// The variables that a record has gained hold their recorded values under its own
/// assignment.
pub proof fn lemma_own_values(cs: SystemView, later: SystemView)
    requires
        later.aux.len() <= usize::MAX,
    ensures
        recorded(cs, later, later.assignment()),
{
}

/// Linear combinations of assigned variables are covered together.
pub proof fn lemma_covers_sum(cs: SystemView, a: Seq<Term>, b: Seq<Term>)
    requires
        cs.covers(a),
        cs.covers(b),
    ensures
        cs.covers(a + b),
{
    assert forall|i: int| 0 <= i < (a + b).len() implies cs.assigned(#[trigger] (a + b)[i].0) by {
        if i < a.len() {
            assert((a + b)[i] == a[i]);
        } else {
            assert((a + b)[i] == b[i - a.len()]);
        }
    }
}

/// Multiples and negations of assigned variables are covered.
pub proof fn lemma_covers_scaled(cs: SystemView, terms: Seq<Term>, k: int)
    requires
        cs.covers(terms),
    ensures
        cs.covers(scaled(terms, k)),
        cs.covers(negated(terms)),
{
    assert forall|i: int| 0 <= i < terms.len() implies cs.assigned(
        #[trigger] scaled(terms, k)[i].0,
    ) && cs.assigned(negated(terms)[i].0) by {
        assert(cs.assigned(terms[i].0));
    }
    assert forall|i: int| 0 <= i < terms.len() implies cs.assigned(
        #[trigger] negated(terms)[i].0,
    ) by {
        assert(cs.assigned(terms[i].0));
    }
}

/// Differences of assigned variables are covered.
pub proof fn lemma_covers_difference(cs: SystemView, a: Seq<Term>, b: Seq<Term>)
    requires
        cs.covers(a),
        cs.covers(b),
    ensures
        cs.covers(difference_terms(a, b)),
        cs.covers(a + negated(b)),
{
    lemma_covers_scaled(cs, a, 1);
    lemma_covers_scaled(cs, b, 1);
    lemma_covers_scaled(cs, scaled(b, 1), 1);
    lemma_covers_sum(cs, scaled(a, 1), negated(scaled(b, 1)));
    lemma_covers_sum(cs, a, negated(b));
}

/// The expression of a constant is honest.
pub proof fn constant_is_honest(cs: SystemView, value: int)
    requires
        0 <= value < modulus(),
    ensures
        honest(cs, of_constant(value)),
{
    constant_is_true(value, cs.assignment());
}

/// The expression of a number is honest where the number was allocated.
pub proof fn allocated_number_is_honest(cs: SystemView, value: int)
    requires
        cs.evaluates,
        0 <= value < modulus(),
        cs.aux.len() < usize::MAX,
    ensures
        ({
            let (later, r) = num_allocated(cs, Some(value));
            r is Ok && cs.grows_to(later) && honest(
                later,
                of_variable((r->Ok_0).variable, (r->Ok_0).value),
            )
        }),
{
    let later = num_allocated(cs, Some(value)).0;
    assert(later.aux[cs.aux.len() as int].value == Some(value));
    lemma_own_values(cs, later);
    allocated_number_is_true(cs, value, later.assignment());
}

/// The expression of a multiple by one is honest where the expression is.
pub proof fn unscaled_is_honest(cs: SystemView, e: LinearView)
    requires
        honest(cs, e),
    ensures
        honest(cs, LinearView { value: e.value, terms: scaled(e.terms, 1) }),
{
    lemma_covers_scaled(cs, e.terms, 1);
    unscaled_is_true(e, cs.assignment());
}

/// Sums of honest expressions are honest.
pub proof fn sum_is_honest(cs: SystemView, a: LinearView, b: LinearView)
    requires
        honest(cs, a),
        honest(cs, b),
    ensures
        honest(cs, sum_of(a, b)),
        eval(sum_of(a, b).terms, cs.assignment()) == fe(
            eval(a.terms, cs.assignment()) + eval(b.terms, cs.assignment()),
        ),
{
    lemma_covers_sum(cs, a.terms, b.terms);
    sum_is_true(a, b, cs.assignment());
}

/// Differences of honest expressions are honest.
pub proof fn difference_is_honest(cs: SystemView, a: LinearView, b: LinearView)
    requires
        honest(cs, a),
        honest(cs, b),
    ensures
        honest(cs, difference_of(a, b)),
        eval(difference_of(a, b).terms, cs.assignment()) == fe(
            eval(a.terms, cs.assignment()) - eval(b.terms, cs.assignment()),
        ),
{
    lemma_covers_difference(cs, a.terms, b.terms);
    difference_is_true(a, b, cs.assignment());
}

/// The expressions of a bit and of its negation are honest where the variable of
/// the bit is.
pub proof fn bit_is_honest(cs: SystemView, b: AllocatedBit)
    requires
        honest(cs, of_variable(b.variable, opt_bit_value(b.value))),
    ensures
        honest(cs, of_boolean(Boolean::Is(b))),
        honest(cs, of_boolean(Boolean::Not(b))),
{
    assert(cs.assigned(of_variable(b.variable, opt_bit_value(b.value)).terms[0].0));
    bit_is_true(b, cs.assignment());
}

/// The expression of a constant bit is honest.
pub proof fn constant_bit_is_honest(cs: SystemView, c: bool)
    ensures
        honest(cs, of_boolean(Boolean::Constant(c))),
{
    constant_bit_is_true(c, cs.assignment());
}

/// Taking away what was added gives the expression back: its value under every
/// assignment, and the value that it carries where both are known.
pub proof fn difference_undoes_sum(a: LinearView, b: LinearView, w: Assignment)
    requires
        a.value is Some ==> 0 <= a.value->0 < modulus(),
    ensures
        eval(difference_of(sum_of(a, b), b).terms, w) == eval(a.terms, w),
        a.value is Some && b.value is Some ==> difference_of(sum_of(a, b), b).value == a.value,
{
    let va = eval(a.terms, w);
    let vb = eval(b.terms, w);
    lemma_eval_sum(a.terms, b.terms, w);
    lemma_eval_difference(a.terms + b.terms, b.terms, w);
    lemma_fe_difference(va + vb, vb);
    lemma_eval_range(a.terms, w);
    lemma_fe_small(va);
    if a.value is Some && b.value is Some {
        lemma_fe_difference(a.value->0 + b.value->0, b.value->0);
        lemma_fe_small(a.value->0);
    }
}

/// A sum stays honest where a multiple of an honest number is added to it.
pub proof fn number_is_added_honestly(
    cs: SystemView,
    num: LinearView,
    variable: AllocatedNumView,
    coeff: int,
)
    requires
        honest(cs, num),
        honest(cs, of_variable(variable.variable, variable.value)),
    ensures
        honest(cs, with_number(num, variable, coeff)),
{
    let var = variable.variable;
    assert(cs.assigned(of_variable(var, variable.value).terms[0].0));
    let all = num.terms.push((var, coeff));
    assert forall|i: int| 0 <= i < all.len() implies cs.assigned(#[trigger] all[i].0) by {
        if i < num.terms.len() {
            assert(all[i] == num.terms[i]);
        }
    }
    number_is_added_truly(num, variable, coeff, cs.assignment());
}

/// A sum stays honest where a multiple of an honest bit is added to it.
pub proof fn bool_is_added_honestly(cs: SystemView, num: LinearView, b: Boolean, coeff: int)
    requires
        honest(cs, num),
        honest(cs, of_boolean(b)),
    ensures
        honest(cs, with_bool(num, Variable::spec_one(), b, coeff)),
{
    lemma_covers_boolean(cs, b, coeff);
    lemma_covers_sum(cs, num.terms, boolean_terms(b, Variable::spec_one(), coeff));
    bool_is_added_truly(num, b, coeff, cs.assignment());
}

/// A bit is covered with every coefficient where it is with one.
pub proof fn lemma_covers_boolean(cs: SystemView, b: Boolean, coeff: int)
    requires
        cs.covers(boolean_terms(b, Variable::spec_one(), 1)),
    ensures
        cs.covers(boolean_terms(b, Variable::spec_one(), coeff)),
{
    let one = Variable::spec_one();
    let t = boolean_terms(b, one, 1);
    let u = boolean_terms(b, one, coeff);
    assert forall|i: int| 0 <= i < u.len() implies cs.assigned(#[trigger] u[i].0) by {
        assert(cs.assigned(t[i].0));
    }
}

/// The comparison of honest expressions succeeds, keeps the record satisfied, and
/// its bit tells whether the values are the same.
pub proof fn equals_is_complete(cs: SystemView, a: LinearView, b: LinearView)
    requires
        is_prime(modulus()),
        cs.evaluates,
        cs.satisfied(),
        honest(cs, a),
        honest(cs, b),
        a.value is Some,
        b.value is Some,
        cs.aux.len() + 2 <= usize::MAX,
    ensures
        ({
            let (later, r) = equals_outcome(cs, a, b);
            &&& r == Ok::<AllocatedBit, SynthesisError>(
                AllocatedBit { variable: cs.fresh(0), value: Some(a.value->0 == b.value->0) },
            )
            &&& later.satisfied()
            &&& cs.grows_to(later)
            &&& honest(later, of_boolean(Boolean::Is(r->Ok_0)))
        }),
{
    let later = equals_outcome(cs, a, b).0;
    let n = cs.constraints.len() as int;
    let m = cs.aux.len() as int;
    lemma_own_values(cs, later);
    lemma_kept_value(cs, later, a.terms);
    lemma_kept_value(cs, later, b.terms);
    equals_is_met(cs, a, b, later.assignment());
    lemma_covers_difference(later, a.terms, b.terms);
    assert(later.aux[m].value is Some && later.aux[m + 1].value is Some);
    assert(later.assigned(cs.fresh(0)) && later.assigned(cs.fresh(1)));
    assert(later.meets(later.constraints[n]));
    assert(later.meets(later.constraints[n + 1]));
    assert(later.meets(later.constraints[n + 2]));
    assert forall|i: int| n <= i < later.constraints.len() implies later.meets(
        #[trigger] later.constraints[i],
    ) by {
        assert(i == n || i == n + 1 || i == n + 2);
    }
    lemma_still_satisfied(cs, later);
}

/// Packed bits are covered where the bits are.
pub proof fn lemma_covers_packed(cs: SystemView, bits: Seq<Boolean>)
    requires
        forall|i: int|
            0 <= i < bits.len() ==> cs.covers(
                boolean_terms(#[trigger] bits[i], Variable::spec_one(), 1),
            ),
    ensures
        cs.covers(packed_terms(bits)),
    decreases bits.len(),
{
    if bits.len() > 0 {
        let m = bits.len() - 1;
        let rest = bits.drop_last();
        assert forall|i: int| 0 <= i < rest.len() implies cs.covers(
            boolean_terms(#[trigger] rest[i], Variable::spec_one(), 1),
        ) by {
            assert(rest[i] == bits[i]);
        }
        lemma_covers_packed(cs, rest);
        lemma_covers_boolean(cs, bits[m], weight(m));
        lemma_covers_sum(
            cs,
            packed_terms(rest),
            boolean_terms(bits[m], Variable::spec_one(), weight(m)),
        );
    }
}

/// Packed bits are honest where the bits are.
pub proof fn packed_bits_are_honest(cs: SystemView, bits: Seq<Boolean>)
    requires
        forall|i: int| 0 <= i < bits.len() ==> honest(cs, of_boolean(#[trigger] bits[i])),
    ensures
        honest(cs, LinearView { value: packed_value(bits), terms: packed_terms(bits) }),
        honest(cs, LinearView { value: packed_value(bits), terms: scaled(packed_terms(bits), 1) }),
{
    assert forall|i: int| 0 <= i < bits.len() implies cs.covers(
        boolean_terms(#[trigger] bits[i], Variable::spec_one(), 1),
    ) by {
        assert(honest(cs, of_boolean(bits[i])));
    }
    lemma_covers_packed(cs, bits);
    lemma_covers_scaled(cs, packed_terms(bits), 1);
    packed_bits_are_true(bits, cs.assignment());
}

/// The selection between honest expressions succeeds where the chosen value is
/// known, and keeps the record satisfied.
pub proof fn select_is_complete(cs: SystemView, a: LinearView, b: LinearView, condition: Boolean)
    requires
        cs.evaluates,
        cs.satisfied(),
        honest(cs, a),
        honest(cs, b),
        honest(cs, of_boolean(condition)),
        opt_choice(condition.value(), a.value, b.value) is Some,
        cs.aux.len() + 1 <= usize::MAX,
    ensures
        ({
            let (later, r) = select_outcome(cs, a, b, condition);
            let c = AllocatedNumView {
                variable: cs.fresh(0),
                value: opt_choice(condition.value(), a.value, b.value),
            };
            &&& r == Ok::<AllocatedNumView, SynthesisError>(c)
            &&& later.satisfied()
            &&& cs.grows_to(later)
            &&& honest(later, of_variable(c.variable, c.value))
        }),
{
    let later = select_outcome(cs, a, b, condition).0;
    let n = cs.constraints.len() as int;
    let c = cs.fresh(0);
    lemma_own_values(cs, later);
    lemma_kept_value(cs, later, a.terms);
    lemma_kept_value(cs, later, b.terms);
    lemma_kept_value(cs, later, boolean_terms(condition, Variable::spec_one(), 1));
    select_is_met(cs, a, b, condition, later.assignment());
    assert(later.aux[cs.aux.len() as int].value is Some);
    lemma_covers_difference(later, a.terms, b.terms);
    lemma_covers_scaled(later, b.terms, 1);
    assert(later.covers(seq![(c, 1int)]));
    lemma_covers_difference(later, seq![(c, 1int)], scaled(b.terms, 1));
    assert(later.meets(later.constraints[n]));
    lemma_still_satisfied(cs, later);
}

/// The conditional reversal of honest expressions succeeds where the values are
/// known, and keeps the record satisfied.
pub proof fn reverse_is_complete(cs: SystemView, a: LinearView, b: LinearView, condition: Boolean)
    requires
        cs.evaluates,
        cs.satisfied(),
        honest(cs, a),
        honest(cs, b),
        honest(cs, of_boolean(condition)),
        a.value is Some,
        b.value is Some,
        condition.value() is Some,
        cs.aux.len() + 2 <= usize::MAX,
    ensures
        ({
            let (later, r) = reverse_outcome(cs, a, b, condition);
            let c = AllocatedNumView {
                variable: cs.fresh(0),
                value: opt_choice(condition.value(), b.value, a.value),
            };
            let d = AllocatedNumView {
                variable: cs.fresh(1),
                value: opt_choice(condition.value(), a.value, b.value),
            };
            &&& r == Ok::<(AllocatedNumView, AllocatedNumView), SynthesisError>((c, d))
            &&& later.satisfied()
            &&& cs.grows_to(later)
            &&& honest(later, of_variable(c.variable, c.value))
            &&& honest(later, of_variable(d.variable, d.value))
        }),
{
    let later = reverse_outcome(cs, a, b, condition).0;
    let n = cs.constraints.len() as int;
    let m = cs.aux.len() as int;
    let c = cs.fresh(0);
    let d = cs.fresh(1);
    assert(cs.grows_to(later)) by {
        assert(later.aux.take(m) =~= cs.aux);
        assert(later.constraints.take(n) =~= cs.constraints);
    }
    lemma_own_values(cs, later);
    lemma_kept_value(cs, later, a.terms);
    lemma_kept_value(cs, later, b.terms);
    lemma_kept_value(cs, later, boolean_terms(condition, Variable::spec_one(), 1));
    reverse_is_met(cs, a, b, condition, later.assignment());
    assert(later.aux[m].value is Some && later.aux[m + 1].value is Some);
    assert(first_reversed(cs, a, b, condition).fresh(0) == d);
    lemma_covers_reversal(later, a.terms, b.terms, c);
    lemma_covers_reversal(later, b.terms, a.terms, d);
    assert(later.meets(later.constraints[n]));
    assert(later.meets(later.constraints[n + 1]));
    assert forall|i: int| n <= i < later.constraints.len() implies later.meets(
        #[trigger] later.constraints[i],
    ) by {
        assert(i == n || i == n + 1);
    }
    lemma_still_satisfied(cs, later);
}

/// The constraint of a reversal is covered where its parts are.
proof fn lemma_covers_reversal(cs: SystemView, a: Seq<Term>, b: Seq<Term>, c: Variable)
    requires
        cs.covers(a),
        cs.covers(b),
        cs.assigned(c),
    ensures
        cs.covers(difference_terms(a, b)),
        cs.covers(scaled(a, 1).push((c, fe(-1)))),
{
    lemma_covers_difference(cs, a, b);
    lemma_covers_scaled(cs, a, 1);
    lemma_covers_sum(cs, scaled(a, 1), seq![(c, fe(-1))]);
    assert(scaled(a, 1) + seq![(c, fe(-1))] =~= scaled(a, 1).push((c, fe(-1))));
}

/// Records with the same variables give the same values.
pub proof fn lemma_same_values(cs: SystemView, other: SystemView, terms: Seq<Term>)
    requires
        cs.aux == other.aux,
    ensures
        cs.covers(terms) == other.covers(terms),
        cs.assignment() == other.assignment(),
{
    assert forall|var: Variable| #[trigger] cs.assigned(var) == other.assigned(var) by {}
    assert(cs.assignment() =~= other.assignment());
    if cs.covers(terms) {
        assert forall|i: int| 0 <= i < terms.len() implies other.assigned(#[trigger] terms[i].0) by {
            assert(cs.assigned(terms[i].0));
        }
    }
    if other.covers(terms) {
        assert forall|i: int| 0 <= i < terms.len() implies cs.assigned(#[trigger] terms[i].0) by {
            assert(other.assigned(terms[i].0));
        }
    }
}

/// Records with the same variables and constraints are satisfied together.
pub proof fn lemma_same_satisfied(cs: SystemView, other: SystemView)
    requires
        cs.aux == other.aux,
        cs.constraints == other.constraints,
        cs.satisfied(),
    ensures
        other.satisfied(),
{
    assert forall|i: int| 0 <= i < other.constraints.len() implies other.meets(
        #[trigger] other.constraints[i],
    ) by {
        let c = cs.constraints[i];
        assert(cs.meets(c));
        lemma_same_values(cs, other, c.a);
        lemma_same_values(cs, other, c.b);
        lemma_same_values(cs, other, c.c);
    }
}

/// An expression is honest in records with the same variables together.
pub proof fn lemma_same_honest(cs: SystemView, other: SystemView, e: LinearView)
    requires
        cs.aux == other.aux,
        honest(cs, e),
    ensures
        honest(other, e),
{
    lemma_same_values(cs, other, e.terms);
}

/// The selection by comparison of honest expressions succeeds where the values
/// are known, and keeps the record satisfied.
pub proof fn select_ifeq_is_complete(
    cs: SystemView,
    a: LinearView,
    b: LinearView,
    x: LinearView,
    y: LinearView,
)
    requires
        is_prime(modulus()),
        cs.evaluates,
        cs.satisfied(),
        honest(cs, a),
        honest(cs, b),
        honest(cs, x),
        honest(cs, y),
        a.value is Some,
        b.value is Some,
        a.value == b.value ==> x.value is Some,
        a.value != b.value ==> y.value is Some,
        cs.aux.len() + 3 <= usize::MAX,
    ensures
        ({
            let (later, r) = select_ifeq_outcome(cs, a, b, x, y);
            let c = AllocatedNumView {
                variable: cs.fresh(2),
                value: if a.value == b.value {
                    x.value
                } else {
                    y.value
                },
            };
            &&& r == Ok::<AllocatedNumView, SynthesisError>(c)
            &&& later.satisfied()
            &&& cs.grows_to(later)
            &&& honest(later, of_variable(c.variable, c.value))
        }),
{
    let start = cs.within("eq"@);
    lemma_same_satisfied(cs, start);
    lemma_same_honest(cs, start, a);
    lemma_same_honest(cs, start, b);
    lemma_same_honest(cs, start, x);
    lemma_same_honest(cs, start, y);
    equals_is_complete(start, a, b);
    let (compared, eq) = equals_outcome(start, a, b);
    let bit = eq->Ok_0;
    honest_stays_honest(start, compared, x);
    honest_stays_honest(start, compared, y);
    let next = compared.without().within("select"@);
    lemma_same_satisfied(compared, next);
    lemma_same_honest(compared, next, x);
    lemma_same_honest(compared, next, y);
    lemma_same_honest(compared, next, of_boolean(Boolean::Is(bit)));
    select_is_complete(next, x, y, Boolean::Is(bit));
    let (selected, r) = select_outcome(next, x, y, Boolean::Is(bit));
    let later = selected.without();
    lemma_same_satisfied(selected, later);
    lemma_same_honest(selected, later, of_variable((r->Ok_0).variable, (r->Ok_0).value));
    assert(cs.path.push("eq"@).drop_last() =~= cs.path);
    assert(compared.without().path =~= cs.path);
    assert(later.path =~= cs.path);
}

/// The decomposition of an honest expression into its `n` least significant bits
/// succeeds, its bits are those of the value, and it keeps the record satisfied
/// just where the value is a number of so many bits.
pub proof fn bits_are_complete(cs: SystemView, e: LinearView, n: nat)
    requires
        cs.evaluates,
        cs.satisfied(),
        honest(cs, e),
        e.value is Some,
        n <= NUM_BITS,
        cs.aux.len() + n <= usize::MAX,
    ensures
        ({
            let (later, r) = bits_outcome(cs, e, n);
            let bits = r->Ok_0;
            &&& r is Ok
            &&& bits.len() == n
            &&& forall|i: int|
                0 <= i < n ==> (#[trigger] bits[i]).value() == Some(bit(e.value->0, i)) && honest(
                    later,
                    of_boolean(bits[i]),
                )
            &&& cs.grows_to(later)
            &&& later.satisfied() <==> e.value->0 < pow2(n)
        }),
{
    let later = bits_outcome(cs, e, n).0;
    let (allocated, r) = bits_allocated(cs, e.value, n);
    let bits = r->Ok_0;
    let c = cs.constraints.len() as int;
    let m = cs.aux.len() as int;
    lemma_own_values(cs, later);
    lemma_kept_value(cs, later, e.terms);
    bits_are_met(cs, e, n, later.assignment());
    assert forall|i: int| 0 <= i < n implies later.assigned((#[trigger] bits[i]).variable) by {
        assert(later.aux[m + i].value is Some);
    }
    assert forall|i: int| 0 <= i < n implies honest(
        later,
        of_boolean(#[trigger] as_booleans(bits)[i]),
    ) by {
        assert(later.assigned(bits[i].variable));
    }
    let unpacking = unpacking_constraint(allocated, bits, e.terms);
    let weighted = weighted_terms(bits);
    assert forall|i: int| 0 <= i < weighted.len() implies later.assigned(#[trigger] weighted[i].0) by {
        assert(later.assigned(bits[i].variable));
    }
    lemma_covers_scaled(later, e.terms, 1);
    lemma_covers_difference(later, weighted, scaled(e.terms, 1));
    assert(later.constraints[c + n] == unpacking);
    assert forall|i: int| c <= i < later.constraints.len() implies {
        let constraint = #[trigger] later.constraints[i];
        later.covers(constraint.a) && later.covers(constraint.b) && later.covers(constraint.c)
    } by {
        if i < c + n {
            let names = seq![bit_name(i - c), "boolean constraint"@];
            assert(later.constraints[i] == boolean_constraint(cs, names, cs.fresh(i - c)));
            assert(later.assigned(bits[i - c].variable));
        }
    }
    if added_hold(cs, later, later.assignment()) {
        lemma_still_satisfied(cs, later);
    }
}

/// The decomposition that is not strict does not fix which of the congruent
/// numbers the bits are those of: where a greater one takes no more bits, its bits
/// satisfy the whole record too.
pub proof fn congruent_bits_are_admitted(cs: SystemView, e: LinearView)
    requires
        cs.evaluates,
        cs.satisfied(),
        is_assignment(cs.assignment()),
        honest(cs, e),
        e.value is Some,
        e.value->0 + modulus() < pow2(NUM_BITS as nat),
        cs.aux.len() + NUM_BITS <= usize::MAX,
    ensures
        ({
            let (later, r) = bits_outcome(cs, e, NUM_BITS as nat);
            let x = e.value->0 + modulus();
            let w = with_bits_of(cs.assignment(), cs.aux.len(), x, NUM_BITS as nat);
            &&& later.satisfied_by(w)
            &&& forall|var: Variable| cs.assigned(var) ==> #[trigger] w(var) == (cs.assignment())(var)
            &&& truths(r->Ok_0, w) == bits_le(x, NUM_BITS as nat)
        }),
{
    let n = NUM_BITS as nat;
    let x = e.value->0 + modulus();
    let w = with_bits_of(cs.assignment(), cs.aux.len(), x, n);
    let later = bits_outcome(cs, e, n).0;
    let c = cs.constraints.len() as int;
    assert forall|var: Variable| 0 <= #[trigger] w(var) < modulus() by {
        assert(0 <= (cs.assignment())(var) < modulus());
    }
    assert forall|i: int| 0 <= i < e.terms.len() implies !newer(
        #[trigger] e.terms[i].0,
        cs.aux.len(),
        n,
    ) by {
        assert(cs.assigned(e.terms[i].0));
    }
    congruent_bits_are_met(cs, e, cs.assignment());
    assert forall|i: int| 0 <= i < later.constraints.len() implies (
    #[trigger] later.constraints[i]).holds(w) by {
        if i < c {
            let constraint = cs.constraints[i];
            assert(later.constraints[i] == constraint);
            assert(cs.meets(constraint));
            lemma_agrees_where_covered(cs, constraint.a, w);
            lemma_agrees_where_covered(cs, constraint.b, w);
            lemma_agrees_where_covered(cs, constraint.c, w);
        }
    }
}

/// An assignment that agrees with a record gives covered linear combinations the
/// same values.
proof fn lemma_agrees_where_covered(cs: SystemView, terms: Seq<Term>, w: Assignment)
    requires
        cs.covers(terms),
        forall|var: Variable| cs.assigned(var) ==> #[trigger] w(var) == (cs.assignment())(var),
    ensures
        eval(terms, w) == eval(terms, cs.assignment()),
{
    assert forall|i: int| 0 <= i < terms.len() implies w(#[trigger] terms[i].0) == (
    cs.assignment())(terms[i].0) by {
        assert(cs.assigned(terms[i].0));
    }
    lemma_eval_agrees(terms, w, cs.assignment());
}

/// The limitation of an honest expression to `n` bits succeeds, and keeps the
/// record satisfied just where the value is a number of so many bits.
pub proof fn limit_is_complete(cs: SystemView, e: LinearView, n: nat)
    requires
        cs.evaluates,
        cs.satisfied(),
        honest(cs, e),
        e.value is Some,
        n <= NUM_BITS,
        cs.aux.len() + NUM_BITS <= usize::MAX,
    ensures
        ({
            let (later, r) = limit_outcome(cs, e, n);
            &&& r is Ok
            &&& cs.grows_to(later)
            &&& later.satisfied() <==> e.value->0 < pow2(n)
        }),
{
    let start = cs.within("unpack to limit number of bits"@);
    lemma_same_satisfied(cs, start);
    lemma_same_honest(cs, start, e);
    bits_are_complete(start, e, NUM_BITS as nat);
    lemma_eval_range(e.terms, cs.assignment());
    lemma_powers_around_modulus();
    let (unpacked, r) = bits_outcome(start, e, NUM_BITS as nat);
    let bits = r->Ok_0;
    let later = limit_outcome(cs, e, n).0;
    let back = unpacked.without();
    lemma_same_satisfied(unpacked, back);
    assert(back.path =~= cs.path);
    lemma_own_values(cs, later);
    lemma_kept_value(cs, later, e.terms);
    limit_is_met(cs, e, n, later.assignment());
    let c = unpacked.constraints.len() as int;
    let top = bits.skip(n as int);
    let repack = later.constraints[c];
    assert forall|i: int| 0 <= i < top.len() implies honest(later, of_boolean(#[trigger] top[i])) by {
        assert(top[i] == bits[n + i]);
        lemma_same_honest(unpacked, later, of_boolean(bits[n + i]));
    }
    packed_bits_are_honest(later, top);
    assert(later.covers(repack.b));
    if added_hold(cs, later, later.assignment()) {
        assert(later.meets(repack));
        lemma_still_satisfied(back, later);
    }
    if later.satisfied() {
        assert(added_hold(cs, later, later.assignment())) by {
            assert forall|i: int| cs.constraints.len() <= i < later.constraints.len() implies (
            #[trigger] later.constraints[i]).holds(later.assignment()) by {
                assert(later.meets(later.constraints[i]));
            }
        }
    }
}

} // verus!
