//! That the values which the gadgets record satisfy the constraints which they
//! add: under every assignment that gives the new variables these values, and
//! under which the operands have the values that they carry. Whatever was
//! recorded before may be satisfied or not, and the operands may use any
//! variables, public inputs among them.

use vstd::arithmetic::div_mod::{
    lemma_mod_add_multiples_vanish, lemma_mod_decreases, lemma_small_mod,
};
use vstd::arithmetic::power2::{lemma_pow2_pos, pow2};
use vstd::prelude::*;

use crate::bits::{
    bit, bit_value, bits_le, le_sum, lemma_bits_sum, lemma_le_sum_range, lemma_le_sum_split,
    lemma_powers_around_modulus,
};
use crate::boolean::{
    and_allocated, bit_allocated, bit_allocated_conditionally, bit_name, bits_allocated,
    boolean_constraint, boolean_terms, conditional_constraint, opt_bit_value, AllocatedBit, Boolean,
};
use crate::constraint_system::{added_hold, Path, SynthesisError, SystemView};
use crate::evaluation::{
    lemma_eval_agrees, lemma_eval_boolean, lemma_eval_difference, lemma_eval_push, lemma_eval_range,
    lemma_eval_single, lemma_eval_sum, lemma_eval_unscaled, lemma_eval_variable,
};
use crate::expression::{
    as_booleans, bits_outcome, difference_of, difference_terms, equals_outcome, first_reversed,
    known_bits, lemma_packed_next, limit_outcome, of_constant, of_variable, opt_choice,
    packed_terms, packed_value, reverse_outcome, select_ifeq_outcome, select_outcome, sum_of,
    unpacking_constraint, weight, weighted_terms,
};
use crate::field_lemmas::{
    lemma_difference_zero, lemma_fe_difference, lemma_fe_product, lemma_fe_range, lemma_fe_small,
    lemma_fe_sum, lemma_inverse_exists,
};
use crate::fr::{fe, inverse, is_prime, modulus, NUM_BITS};
use crate::linear_combination::{eval, scaled, Assignment, Variable};
use crate::num::{num_allocated, with_bool, with_number, AllocatedNumView, LinearView};
use crate::soundness::{
    holds_bit, is_boolean, lemma_added_between, lemma_eval_packed, lemma_eval_weighted,
    lemma_one_less, lemma_truths, ones, truth, truths,
};

verus! {

/// Whether the value of an expression, where it is known, is that of its linear
/// combination.
pub open spec fn true_under(e: LinearView, w: Assignment) -> bool {
    e.value is Some ==> e.value->0 == eval(e.terms, w)
}

/// Whether an assignment gives the variables that a record has gained the values
/// that were recorded for them.
pub open spec fn recorded(cs: SystemView, later: SystemView, w: Assignment) -> bool {
    forall|i: int|
        cs.aux.len() <= i < later.aux.len() && (#[trigger] later.aux[i]).value is Some ==> w(
            Variable::Aux(i as usize),
        ) == later.aux[i].value->0
}

/// The expression of a bit of a circuit.
pub open spec fn of_boolean(b: Boolean) -> LinearView {
    LinearView {
        value: opt_bit_value(b.value()),
        terms: boolean_terms(b, Variable::spec_one(), 1),
    }
}

/// What is recorded of a record is recorded of every part of its growth.
pub proof fn lemma_recorded_between(
    cs: SystemView,
    between: SystemView,
    later: SystemView,
    w: Assignment,
)
    requires
        cs.aux.len() <= between.aux.len(),
        between.aux.is_prefix_of(later.aux),
        recorded(cs, later, w),
    ensures
        recorded(cs, between, w),
        recorded(between, later, w),
{
    assert forall|i: int|
        cs.aux.len() <= i < between.aux.len() && (
        #[trigger] between.aux[i]).value is Some implies w(Variable::Aux(i as usize))
        == between.aux[i].value->0 by {
        assert(later.aux[i] == between.aux[i]);
    }
}

/// The expression of a constant has its value under every assignment.
pub proof fn constant_is_true(value: int, w: Assignment)
    requires
        w(Variable::spec_one()) == 1,
        0 <= value < modulus(),
    ensures
        true_under(of_constant(value), w),
{
    lemma_eval_single(Variable::spec_one(), value, w);
    lemma_fe_small(value);
}

/// The expression of an allocated number has the value that was recorded.
pub proof fn allocated_number_is_true(cs: SystemView, value: int, w: Assignment)
    requires
        cs.evaluates,
        0 <= value < modulus(),
        cs.aux.len() < usize::MAX,
        recorded(cs, num_allocated(cs, Some(value)).0, w),
    ensures
        ({
            let (later, r) = num_allocated(cs, Some(value));
            r is Ok && true_under(of_variable((r->Ok_0).variable, (r->Ok_0).value), w)
        }),
{
    let later = num_allocated(cs, Some(value)).0;
    assert(later.aux[cs.aux.len() as int].value == Some(value));
    lemma_eval_variable(cs.fresh(0), w);
}

/// The expressions of a bit and of its negation have their values where the
/// variable of the bit has its own.
pub proof fn bit_is_true(b: AllocatedBit, w: Assignment)
    requires
        w(Variable::spec_one()) == 1,
        true_under(of_variable(b.variable, opt_bit_value(b.value)), w),
    ensures
        true_under(of_boolean(Boolean::Is(b)), w),
        true_under(of_boolean(Boolean::Not(b)), w),
{
    let one = Variable::spec_one();
    let var = b.variable;
    lemma_eval_single(var, 1, w);
    lemma_eval_single(one, 1, w);
    lemma_eval_push(seq![(one, 1int)], var, fe(-1), w);
    assert(seq![(one, 1int)].push((var, fe(-1))) =~= boolean_terms(Boolean::Not(b), one, 1));
    lemma_fe_product(-1, w(var));
    lemma_fe_sum(1, fe(-1) * w(var));
    lemma_fe_sum(1, -1 * w(var));
    lemma_fe_difference(1, w(var));
    assert(1 * w(var) == w(var));
}

/// The expression of a constant bit has its value under every assignment.
pub proof fn constant_bit_is_true(c: bool, w: Assignment)
    requires
        w(Variable::spec_one()) == 1,
    ensures
        true_under(of_boolean(Boolean::Constant(c)), w),
{
    lemma_eval_single(Variable::spec_one(), 1, w);
}

/// A multiple by one has the value of the expression.
pub proof fn unscaled_is_true(e: LinearView, w: Assignment)
    requires
        true_under(e, w),
    ensures
        true_under(LinearView { value: e.value, terms: scaled(e.terms, 1) }, w),
{
    lemma_eval_unscaled(e.terms, w);
}

/// Sums of expressions that have their values have theirs.
pub proof fn sum_is_true(a: LinearView, b: LinearView, w: Assignment)
    requires
        true_under(a, w),
        true_under(b, w),
    ensures
        true_under(sum_of(a, b), w),
        eval(sum_of(a, b).terms, w) == fe(eval(a.terms, w) + eval(b.terms, w)),
{
    lemma_eval_sum(a.terms, b.terms, w);
}

/// Differences of expressions that have their values have theirs.
pub proof fn difference_is_true(a: LinearView, b: LinearView, w: Assignment)
    requires
        true_under(a, w),
        true_under(b, w),
    ensures
        true_under(difference_of(a, b), w),
        eval(difference_of(a, b).terms, w) == fe(eval(a.terms, w) - eval(b.terms, w)),
{
    lemma_eval_difference(a.terms, b.terms, w);
}

/// A sum keeps its value true where a multiple of a number that has its value is
/// added to it.
pub proof fn number_is_added_truly(
    num: LinearView,
    variable: AllocatedNumView,
    coeff: int,
    w: Assignment,
)
    requires
        true_under(num, w),
        true_under(of_variable(variable.variable, variable.value), w),
    ensures
        true_under(with_number(num, variable, coeff), w),
{
    let var = variable.variable;
    lemma_eval_push(num.terms, var, coeff, w);
    lemma_eval_single(var, 1, w);
    if num.value is Some && variable.value is Some {
        let n = variable.value->0;
        lemma_fe_product(w(var), coeff);
        assert(w(var) * coeff == coeff * w(var)) by (nonlinear_arith);
        lemma_fe_sum(num.value->0, coeff * w(var));
        lemma_fe_sum(num.value->0, n * coeff);
    }
}

/// A sum keeps its value true where a multiple of a bit that has its value is
/// added to it.
pub proof fn bool_is_added_truly(num: LinearView, b: Boolean, coeff: int, w: Assignment)
    requires
        w(Variable::spec_one()) == 1,
        true_under(num, w),
        true_under(of_boolean(b), w),
    ensures
        true_under(with_bool(num, Variable::spec_one(), b, coeff), w),
{
    let one = Variable::spec_one();
    lemma_eval_boolean(b, coeff, w);
    lemma_eval_sum(num.terms, boolean_terms(b, one, coeff), w);
    lemma_eval_range(num.terms, w);
    if num.value is Some && b.value() is Some {
        let v = num.value->0;
        lemma_fe_sum(v, coeff);
        lemma_fe_small(v);
        if b.value()->0 {
            assert(coeff * 1 == coeff);
        } else {
            assert(coeff * 0 == 0);
        }
    }
}

/// Packed bits have the value of the number where the bits have their values.
pub proof fn packed_bits_are_true(bits: Seq<Boolean>, w: Assignment)
    requires
        w(Variable::spec_one()) == 1,
        forall|i: int| 0 <= i < bits.len() ==> true_under(of_boolean(#[trigger] bits[i]), w),
    ensures
        true_under(LinearView { value: packed_value(bits), terms: packed_terms(bits) }, w),
        true_under(
            LinearView { value: packed_value(bits), terms: scaled(packed_terms(bits), 1) },
            w,
        ),
    decreases bits.len(),
{
    let all = LinearView { value: packed_value(bits), terms: packed_terms(bits) };
    if bits.len() == 0 {
        assert(known_bits(bits) == Some(Seq::<bool>::empty()));
    } else {
        let m = bits.len() - 1;
        let rest = bits.drop_last();
        assert forall|i: int| 0 <= i < rest.len() implies true_under(
            of_boolean(#[trigger] rest[i]),
            w,
        ) by {
            assert(rest[i] == bits[i]);
        }
        packed_bits_are_true(rest, w);
        assert(true_under(of_boolean(bits[m]), w));
        let before = LinearView { value: packed_value(rest), terms: packed_terms(rest) };
        bool_is_added_truly(before, bits[m], weight(m), w);
        lemma_packed_next(bits, m);
        assert(bits.take(m) =~= rest);
        assert(bits.take(m + 1) =~= bits);
        assert(all == with_bool(before, Variable::spec_one(), bits[m], weight(m)));
    }
    unscaled_is_true(all, w);
}

/// A variable that holds a bit satisfies the boolean constraint.
pub proof fn lemma_bit_satisfies(cs: SystemView, names: Path, var: Variable, w: Assignment)
    requires
        w(Variable::spec_one()) == 1,
        holds_bit(var, w),
    ensures
        boolean_constraint(cs, names, var).holds(w),
{
    lemma_one_less(var, w);
    lemma_eval_variable(var, w);
    let x = w(var);
    let rest = fe(1 - x);
    assert(x == 1 ==> rest == 0);
    assert(rest * x == 0) by (nonlinear_arith)
        requires
            x == 0 || rest == 0,
    ;
}

/// Whether the variable of a bit holds the value of the bit, which is known.
pub open spec fn true_bit(b: AllocatedBit, w: Assignment) -> bool {
    b.value is Some && w(b.variable) == bit_value(b.value->0)
}

/// The recorded value of a bit satisfies its constraint.
pub proof fn allocated_bit_is_met(cs: SystemView, value: bool, w: Assignment)
    requires
        cs.evaluates,
        cs.aux.len() < usize::MAX,
        w(Variable::spec_one()) == 1,
        recorded(cs, bit_allocated(cs, Some(value)).0, w),
    ensures
        ({
            let (later, r) = bit_allocated(cs, Some(value));
            &&& r is Ok
            &&& (r->Ok_0).value == Some(value)
            &&& added_hold(cs, later, w)
            &&& true_bit(r->Ok_0, w)
        }),
{
    let later = bit_allocated(cs, Some(value)).0;
    assert(later.aux[cs.aux.len() as int].value == Some(bit_value(value)));
    lemma_bit_satisfies(cs, seq!["boolean constraint"@], cs.fresh(0), w);
}

/// The recorded value of a bit that must be false under a condition satisfies its
/// constraint where the bit or the condition is false.
pub proof fn conditional_bit_is_met(
    cs: SystemView,
    value: bool,
    must_be_false: AllocatedBit,
    w: Assignment,
)
    requires
        cs.evaluates,
        cs.aux.len() < usize::MAX,
        w(Variable::spec_one()) == 1,
        true_bit(must_be_false, w),
        must_be_false.value == Some(true) ==> !value,
        recorded(
            cs,
            bit_allocated_conditionally(cs, Some(value), must_be_false.variable).0,
            w,
        ),
    ensures
        ({
            let (later, r) = bit_allocated_conditionally(cs, Some(value), must_be_false.variable);
            &&& r is Ok
            &&& (r->Ok_0).value == Some(value)
            &&& added_hold(cs, later, w)
            &&& true_bit(r->Ok_0, w)
        }),
{
    let (later, r) = bit_allocated_conditionally(cs, Some(value), must_be_false.variable);
    let one = Variable::spec_one();
    let var = cs.fresh(0);
    let must = must_be_false.variable;
    assert(later.aux[cs.aux.len() as int].value == Some(bit_value(value)));
    let m = w(must);
    let x = w(var);
    let first = seq![(one, 1int), (must, fe(-1))];
    lemma_one_less(must, w);
    lemma_eval_push(first, var, fe(-1), w);
    let all = seq![(one, 1int), (must, fe(-1)), (var, fe(-1))];
    assert(first.push((var, fe(-1))) =~= all);
    lemma_fe_product(-1, x);
    lemma_fe_sum(fe(1 - m), fe(-1) * x);
    lemma_fe_sum(fe(1 - m), -1 * x);
    lemma_fe_sum(1 - m, -1 * x);
    lemma_eval_variable(var, w);
    let rest = fe(1 - m - x);
    assert(eval(all, w) == rest);
    assert(x == 1 ==> rest == 0);
    assert(rest * x == 0) by (nonlinear_arith)
        requires
            x == 0 || rest == 0,
    ;
    assert(conditional_constraint(cs, seq!["boolean constraint"@], must, var).holds(w));
}

/// The recorded value of a conjunction satisfies its constraint.
pub proof fn and_is_met(cs: SystemView, a: AllocatedBit, b: AllocatedBit, w: Assignment)
    requires
        cs.evaluates,
        cs.aux.len() < usize::MAX,
        true_bit(a, w),
        true_bit(b, w),
        recorded(cs, and_allocated(cs, a, b).0, w),
    ensures
        ({
            let (later, r) = and_allocated(cs, a, b);
            &&& r is Ok
            &&& (r->Ok_0).value == Some(a.value->0 && b.value->0)
            &&& added_hold(cs, later, w)
            &&& true_bit(r->Ok_0, w)
        }),
{
    let (later, r) = and_allocated(cs, a, b);
    let both = a.value->0 && b.value->0;
    assert(later.aux[cs.aux.len() as int].value == Some(bit_value(both)));
    lemma_eval_variable(a.variable, w);
    lemma_eval_variable(b.variable, w);
    lemma_eval_variable(cs.fresh(0), w);
    let x = w(a.variable);
    let y = w(b.variable);
    assert(x * y == bit_value(x == 1 && y == 1)) by (nonlinear_arith)
        requires
            x == 0 || x == 1,
            y == 0 || y == 1,
    ;
    assert(later.constraints[cs.constraints.len() as int].holds(w));
}

/// The recorded values of a comparison satisfy its constraints, and its bit tells
/// whether the values are the same.
pub proof fn equals_is_met(cs: SystemView, a: LinearView, b: LinearView, w: Assignment)
    requires
        is_prime(modulus()),
        cs.evaluates,
        cs.aux.len() + 2 <= usize::MAX,
        w(Variable::spec_one()) == 1,
        true_under(a, w),
        true_under(b, w),
        a.value is Some,
        b.value is Some,
        recorded(cs, equals_outcome(cs, a, b).0, w),
    ensures
        ({
            let (later, r) = equals_outcome(cs, a, b);
            &&& r == Ok::<AllocatedBit, SynthesisError>(
                AllocatedBit { variable: cs.fresh(0), value: Some(a.value->0 == b.value->0) },
            )
            &&& added_hold(cs, later, w)
            &&& true_under(of_boolean(Boolean::Is(r->Ok_0)), w)
        }),
{
    let (later, res) = equals_outcome(cs, a, b);
    let n = cs.constraints.len() as int;
    let m = cs.aux.len() as int;
    let one = Variable::spec_one();
    let r = cs.fresh(0);
    let x = cs.fresh(1);
    let va = a.value->0;
    let vb = b.value->0;
    assert(later.aux[m].value == Some(bit_value(va == vb)));
    let wx = later.aux[m + 1].value->0;
    lemma_eval_range(a.terms, w);
    lemma_eval_range(b.terms, w);
    lemma_eval_difference(a.terms, b.terms, w);
    lemma_difference_zero(va, vb);
    let delta = fe(va - vb);
    lemma_fe_range(va - vb);
    if va != vb {
        lemma_inverse_exists(delta);
        lemma_fe_range(-inverse(delta));
    }
    assert(w(x) == wx && 0 <= wx < modulus());
    lemma_eval_variable(r, w);
    lemma_eval_variable(x, w);
    lemma_bit_satisfies(cs, seq!["r"@, "boolean constraint"@], r, w);
    lemma_eval_push(seq![(r, 1int)], one, fe(-1), w);
    assert(seq![(r, 1int)].push((one, fe(-1))) =~= seq![(r, 1int), (one, fe(-1))]);
    assert(fe(-1) * w(one) == fe(-1));
    lemma_fe_sum(w(r), -1);
    if va == vb {
        assert(delta * w(r) == 0 && delta * w(x) == 0) by (nonlinear_arith)
            requires
                delta == 0,
        ;
    } else {
        assert(delta * w(r) == 0);
        lemma_fe_product(delta, -inverse(delta));
        assert(delta * -inverse(delta) == -(delta * inverse(delta))) by (nonlinear_arith);
        lemma_fe_difference(0, delta * inverse(delta));
    }
    assert(later.constraints[n + 1].holds(w));
    assert(later.constraints[n + 2].holds(w));
    assert forall|i: int| n <= i < later.constraints.len() implies (
    #[trigger] later.constraints[i]).holds(w) by {
        assert(i == n || i == n + 1 || i == n + 2);
    }
}

/// The recorded value of a selection satisfies its constraint.
pub proof fn select_is_met(
    cs: SystemView,
    a: LinearView,
    b: LinearView,
    condition: Boolean,
    w: Assignment,
)
    requires
        cs.evaluates,
        cs.aux.len() + 1 <= usize::MAX,
        true_under(a, w),
        true_under(b, w),
        true_under(of_boolean(condition), w),
        opt_choice(condition.value(), a.value, b.value) is Some,
        recorded(cs, select_outcome(cs, a, b, condition).0, w),
    ensures
        ({
            let (later, r) = select_outcome(cs, a, b, condition);
            let c = AllocatedNumView {
                variable: cs.fresh(0),
                value: opt_choice(condition.value(), a.value, b.value),
            };
            &&& r == Ok::<AllocatedNumView, SynthesisError>(c)
            &&& added_hold(cs, later, w)
            &&& true_under(of_variable(c.variable, c.value), w)
        }),
{
    let (later, res) = select_outcome(cs, a, b, condition);
    let n = cs.constraints.len() as int;
    let c = cs.fresh(0);
    let cond = boolean_terms(condition, Variable::spec_one(), 1);
    let va = eval(a.terms, w);
    let vb = eval(b.terms, w);
    lemma_eval_range(a.terms, w);
    lemma_eval_range(b.terms, w);
    assert(later.aux[cs.aux.len() as int].value == opt_choice(
        condition.value(),
        a.value,
        b.value,
    ));
    lemma_eval_variable(c, w);
    lemma_eval_difference(a.terms, b.terms, w);
    lemma_eval_difference(seq![(c, 1int)], scaled(b.terms, 1), w);
    lemma_eval_unscaled(b.terms, w);
    lemma_fe_range(va - vb);
    lemma_fe_small(fe(va - vb));
    assert(fe(vb - vb) == 0);
    let delta = fe(va - vb);
    assert(delta * 0 == 0);
    assert(delta * 1 == delta);
    assert(fe(delta * eval(cond, w)) == fe(w(c) - vb));
    assert(later.constraints[n].holds(w));
}

/// The recorded values of a conditional reversal satisfy its constraints.
pub proof fn reverse_is_met(
    cs: SystemView,
    a: LinearView,
    b: LinearView,
    condition: Boolean,
    w: Assignment,
)
    requires
        cs.evaluates,
        cs.aux.len() + 2 <= usize::MAX,
        true_under(a, w),
        true_under(b, w),
        true_under(of_boolean(condition), w),
        a.value is Some,
        b.value is Some,
        condition.value() is Some,
        recorded(cs, reverse_outcome(cs, a, b, condition).0, w),
    ensures
        ({
            let (later, r) = reverse_outcome(cs, a, b, condition);
            let c = AllocatedNumView {
                variable: cs.fresh(0),
                value: opt_choice(condition.value(), b.value, a.value),
            };
            let d = AllocatedNumView {
                variable: cs.fresh(1),
                value: opt_choice(condition.value(), a.value, b.value),
            };
            &&& r == Ok::<(AllocatedNumView, AllocatedNumView), SynthesisError>((c, d))
            &&& added_hold(cs, later, w)
            &&& true_under(of_variable(c.variable, c.value), w)
            &&& true_under(of_variable(d.variable, d.value), w)
        }),
{
    let (later, res) = reverse_outcome(cs, a, b, condition);
    let n = cs.constraints.len() as int;
    let m = cs.aux.len() as int;
    let c = cs.fresh(0);
    let d = cs.fresh(1);
    let first = first_reversed(cs, a, b, condition);
    lemma_eval_range(a.terms, w);
    lemma_eval_range(b.terms, w);
    assert(later.aux[m].value == opt_choice(condition.value(), b.value, a.value));
    assert(later.aux[m + 1].value == opt_choice(condition.value(), a.value, b.value));
    assert(first.fresh(0) == d);
    lemma_eval_variable(c, w);
    lemma_eval_variable(d, w);
    lemma_met_reversal(a, b, condition, c, w);
    lemma_met_reversal(b, a, condition, d, w);
    assert(later.constraints[n].holds(w));
    assert(later.constraints[n + 1].holds(w));
    assert forall|i: int| n <= i < later.constraints.len() implies (
    #[trigger] later.constraints[i]).holds(w) by {
        assert(i == n || i == n + 1);
    }
}

/// The choice between two expressions meets `(a - b) * condition = a - c`.
proof fn lemma_met_reversal(
    a: LinearView,
    b: LinearView,
    condition: Boolean,
    c: Variable,
    w: Assignment,
)
    requires
        true_under(of_boolean(condition), w),
        condition.value() is Some,
        w(c) == if condition.value()->0 {
            eval(b.terms, w)
        } else {
            eval(a.terms, w)
        },
    ensures
        fe(
            eval(difference_terms(a.terms, b.terms), w) * eval(
                boolean_terms(condition, Variable::spec_one(), 1),
                w,
            ),
        ) == eval(scaled(a.terms, 1).push((c, fe(-1))), w),
{
    let va = eval(a.terms, w);
    let vb = eval(b.terms, w);
    lemma_eval_difference(a.terms, b.terms, w);
    lemma_eval_push(scaled(a.terms, 1), c, fe(-1), w);
    lemma_eval_unscaled(a.terms, w);
    lemma_fe_product(-1, w(c));
    lemma_fe_sum(va, fe(-1) * w(c));
    lemma_fe_sum(va, -1 * w(c));
    lemma_fe_range(va - vb);
    lemma_fe_small(fe(va - vb));
    assert(fe(va - va) == 0);
    let delta = fe(va - vb);
    assert(delta * 0 == 0);
    assert(delta * 1 == delta);
}

/// The recorded values of a selection by comparison satisfy its constraints.
pub proof fn select_ifeq_is_met(
    cs: SystemView,
    a: LinearView,
    b: LinearView,
    x: LinearView,
    y: LinearView,
    w: Assignment,
)
    requires
        is_prime(modulus()),
        cs.evaluates,
        cs.aux.len() + 3 <= usize::MAX,
        w(Variable::spec_one()) == 1,
        true_under(a, w),
        true_under(b, w),
        true_under(x, w),
        true_under(y, w),
        a.value is Some,
        b.value is Some,
        a.value == b.value ==> x.value is Some,
        a.value != b.value ==> y.value is Some,
        recorded(cs, select_ifeq_outcome(cs, a, b, x, y).0, w),
    ensures
        ({
            let (later, r) = select_ifeq_outcome(cs, a, b, x, y);
            let c = AllocatedNumView {
                variable: cs.fresh(2),
                value: if a.value == b.value {
                    x.value
                } else {
                    y.value
                },
            };
            &&& r == Ok::<AllocatedNumView, SynthesisError>(c)
            &&& added_hold(cs, later, w)
            &&& true_under(of_variable(c.variable, c.value), w)
        }),
{
    let start = cs.within("eq"@);
    let (compared, eq) = equals_outcome(start, a, b);
    let next = compared.without().within("select"@);
    let later = select_ifeq_outcome(cs, a, b, x, y).0;
    let bit = eq->Ok_0;
    let (selected, r) = select_outcome(next, x, y, Boolean::Is(bit));
    lemma_recorded_between(cs, compared, later, w);
    assert(recorded(start, compared, w));
    equals_is_met(start, a, b, w);
    assert(recorded(next, selected, w)) by {
        assert(recorded(compared, later, w));
        assert(selected.aux == later.aux);
    }
    select_is_met(next, x, y, Boolean::Is(bit), w);
    assert(added_hold(cs, compared, w)) by {
        assert(added_hold(start, compared, w));
    }
    assert(added_hold(compared, later, w)) by {
        assert(added_hold(next, selected, w));
        assert(selected.constraints == later.constraints);
    }
    lemma_added_between(cs, compared, later, w);
}

/// The recorded bits of an expression are those of its value, and satisfy the
/// constraints just where the value is a number of so many bits.
pub proof fn bits_are_met(cs: SystemView, e: LinearView, n: nat, w: Assignment)
    requires
        cs.evaluates,
        n <= NUM_BITS,
        cs.aux.len() + n <= usize::MAX,
        w(Variable::spec_one()) == 1,
        true_under(e, w),
        e.value is Some,
        recorded(cs, bits_outcome(cs, e, n).0, w),
    ensures
        ({
            let (later, r) = bits_outcome(cs, e, n);
            let bits = r->Ok_0;
            &&& r is Ok
            &&& bits.len() == n
            &&& forall|i: int|
                0 <= i < n ==> (#[trigger] bits[i]).value() == Some(bit(e.value->0, i))
                    && true_under(of_boolean(bits[i]), w)
            &&& added_hold(cs, later, w) <==> e.value->0 < pow2(n)
        }),
{
    let v = e.value->0;
    let (later, res) = bits_outcome(cs, e, n);
    let (allocated, r) = bits_allocated(cs, e.value, n);
    let bits = r->Ok_0;
    let c = cs.constraints.len() as int;
    let m = cs.aux.len() as int;
    assert forall|i: int| 0 <= i < n implies w((#[trigger] bits[i]).variable) == bit_value(
        bit(v, i),
    ) && holds_bit(bits[i].variable, w) by {
        assert(later.aux[m + i].value == Some(bit_value(bit(v, i))));
    }
    assert forall|i: int| 0 <= i < n implies true_under(
        of_boolean(#[trigger] as_booleans(bits)[i]),
        w,
    ) by {
        assert(holds_bit(bits[i].variable, w));
        lemma_eval_variable(bits[i].variable, w);
    }
    lemma_eval_range(e.terms, w);
    // The sum of the bits is what remains of the value modulo the power of two.
    assert(ones(bits, w) =~= bits_le(v, n)) by {
        assert forall|i: int| 0 <= i < n implies ones(bits, w)[i] == bit(v, i) by {
            assert(w(bits[i].variable) == bit_value(bit(v, i)));
        }
    }
    lemma_bits_sum(v, n);
    lemma_eval_weighted(bits, w);
    let sum = le_sum(bits_le(v, n));
    lemma_pow2_pos(n);
    lemma_mod_decreases(v as nat, pow2(n));
    lemma_le_sum_range(bits_le(v, n));
    lemma_fe_small(sum);
    if v < pow2(n) {
        lemma_small_mod(v as nat, pow2(n));
    }
    let unpacking = unpacking_constraint(allocated, bits, e.terms);
    lemma_eval_difference(weighted_terms(bits), scaled(e.terms, 1), w);
    lemma_eval_unscaled(e.terms, w);
    lemma_difference_zero(sum, v);
    assert(unpacking.holds(w) <==> v < pow2(n));
    assert(later.constraints[c + n] == unpacking);
    if v < pow2(n) {
        assert forall|i: int| c <= i < later.constraints.len() implies (
        #[trigger] later.constraints[i]).holds(w) by {
            if i < c + n {
                let k = i - c;
                let names = seq![bit_name(k), "boolean constraint"@];
                assert(later.constraints[i] == boolean_constraint(cs, names, cs.fresh(k)));
                assert(holds_bit(bits[k].variable, w));
                lemma_bit_satisfies(cs, names, cs.fresh(k), w);
            }
        }
    }
}

/// Whether a variable is one of the `n` auxiliary ones from the index `m` on.
pub open spec fn newer(var: Variable, m: nat, n: nat) -> bool {
    match var {
        Variable::Aux(i) => m <= i < m + n,
        Variable::Input(_) => false,
    }
}

/// An assignment with the bits of `x` in the `n` auxiliary variables from the
/// index `m` on.
pub open spec fn with_bits_of(w: Assignment, m: nat, x: int, n: nat) -> Assignment {
    |var: Variable|
        match var {
            Variable::Aux(i) => if m <= i < m + n {
                bit_value(bit(x, i - m))
            } else {
                w(var)
            },
            Variable::Input(_) => w(var),
        }
}

/// The decomposition that is not strict does not fix which of the congruent
/// numbers the bits are those of: where a greater one takes no more bits, its bits
/// satisfy the constraints too, whatever the other variables hold.
pub proof fn congruent_bits_are_met(cs: SystemView, e: LinearView, w: Assignment)
    requires
        bits_outcome(cs, e, NUM_BITS as nat).1 is Ok,
        cs.aux.len() + NUM_BITS <= usize::MAX,
        w(Variable::spec_one()) == 1,
        forall|i: int|
            0 <= i < e.terms.len() ==> !newer(
                #[trigger] e.terms[i].0,
                cs.aux.len(),
                NUM_BITS as nat,
            ),
        eval(e.terms, w) + modulus() < pow2(NUM_BITS as nat),
    ensures
        ({
            let (later, r) = bits_outcome(cs, e, NUM_BITS as nat);
            let x = eval(e.terms, w) + modulus();
            let u = with_bits_of(w, cs.aux.len(), x, NUM_BITS as nat);
            &&& added_hold(cs, later, u)
            &&& eval(e.terms, u) == eval(e.terms, w)
            &&& truths(r->Ok_0, u) == bits_le(x, NUM_BITS as nat)
        }),
{
    let n = NUM_BITS as nat;
    let v = eval(e.terms, w);
    let x = v + modulus();
    let u = with_bits_of(w, cs.aux.len(), x, n);
    let later = bits_outcome(cs, e, n).0;
    let (allocated, r) = bits_allocated(cs, e.value, n);
    let bits = r->Ok_0;
    let c = cs.constraints.len() as int;
    let m = cs.aux.len() as int;
    assert(u(Variable::spec_one()) == 1);
    assert forall|i: int| 0 <= i < n implies u((#[trigger] bits[i]).variable) == bit_value(
        bit(x, i),
    ) && holds_bit(bits[i].variable, u) by {
        assert(cs.fresh(i) == Variable::Aux((m + i) as usize));
    }
    lemma_truths(bits, u);
    assert(ones(bits, u) =~= bits_le(x, n));
    assert forall|i: int| 0 <= i < e.terms.len() implies u(#[trigger] e.terms[i].0) == w(
        e.terms[i].0,
    ) by {
        assert(!newer(e.terms[i].0, cs.aux.len(), n));
    }
    lemma_eval_agrees(e.terms, u, w);
    lemma_eval_range(e.terms, w);
    lemma_bits_sum(x, n);
    lemma_small_mod(x as nat, pow2(n));
    lemma_eval_weighted(bits, u);
    assert(fe(x) == v) by {
        lemma_mod_add_multiples_vanish(v, modulus());
        lemma_fe_small(v);
    }
    assert forall|i: int| c <= i < later.constraints.len() implies (
    #[trigger] later.constraints[i]).holds(u) by {
        if i < c + n {
            let k = i - c;
            let names = seq![bit_name(k), "boolean constraint"@];
            assert(later.constraints[i] == boolean_constraint(cs, names, cs.fresh(k)));
            assert(holds_bit(bits[k].variable, u));
            lemma_bit_satisfies(cs, names, cs.fresh(k), u);
        } else {
            assert(later.constraints[i] == unpacking_constraint(allocated, bits, e.terms));
            lemma_eval_difference(weighted_terms(bits), scaled(e.terms, 1), u);
            lemma_eval_unscaled(e.terms, u);
            lemma_difference_zero(v, v);
            assert(unpacking_constraint(allocated, bits, e.terms).holds(u));
        }
    }
}

/// The recorded bits of a limited expression satisfy the constraints just where
/// the value is a number of so many bits.
pub proof fn limit_is_met(cs: SystemView, e: LinearView, n: nat, w: Assignment)
    requires
        cs.evaluates,
        n <= NUM_BITS,
        cs.aux.len() + NUM_BITS <= usize::MAX,
        w(Variable::spec_one()) == 1,
        true_under(e, w),
        e.value is Some,
        recorded(cs, limit_outcome(cs, e, n).0, w),
    ensures
        ({
            let (later, r) = limit_outcome(cs, e, n);
            &&& r is Ok
            &&& added_hold(cs, later, w) <==> e.value->0 < pow2(n)
        }),
{
    let v = e.value->0;
    let start = cs.within("unpack to limit number of bits"@);
    let (unpacked, r) = bits_outcome(start, e, NUM_BITS as nat);
    let (later, res) = limit_outcome(cs, e, n);
    assert(recorded(start, unpacked, w)) by {
        assert(unpacked.aux == later.aux);
    }
    bits_are_met(start, e, NUM_BITS as nat, w);
    lemma_eval_range(e.terms, w);
    lemma_powers_around_modulus();
    let bits = r->Ok_0;
    let c = unpacked.constraints.len() as int;
    let top = bits.skip(n as int);
    let repack = later.constraints[c];
    assert forall|i: int| 0 <= i < top.len() implies true_under(of_boolean(#[trigger] top[i]), w)
        && is_boolean(top[i], w) && truth(top[i], w) == bit(v, n + i) by {
        assert(top[i] == bits[n + i]);
    }
    lemma_eval_packed(top, w);
    lemma_eval_unscaled(packed_terms(top), w);
    let t = bits_le(v, NUM_BITS as nat);
    let high = t.skip(n as int);
    assert(truths(top, w) =~= high);
    // The value is made of the lower bits and a multiple of the higher ones.
    lemma_bits_sum(v, NUM_BITS as nat);
    lemma_small_mod(v as nat, pow2(NUM_BITS as nat));
    lemma_le_sum_split(t, n as int);
    lemma_le_sum_range(t.take(n as int));
    lemma_le_sum_range(high);
    let h = le_sum(high);
    let p = pow2(n) as int;
    lemma_pow2_pos(n);
    assert(h <= v && (h == 0 <==> v < p)) by (nonlinear_arith)
        requires
            v == le_sum(t.take(n as int)) + p * h,
            0 <= le_sum(t.take(n as int)) < p,
            0 <= h,
            0 < p,
    ;
    lemma_fe_small(h);
    assert(0 * eval(repack.b, w) == 0);
    assert(repack.holds(w) <==> v < p);
    assert(added_hold(cs, unpacked, w)) by {
        assert(added_hold(start, unpacked, w));
    }
    lemma_added_between(cs, unpacked, later, w);
    assert(added_hold(unpacked, later, w) <==> repack.holds(w));
}

} // verus!
