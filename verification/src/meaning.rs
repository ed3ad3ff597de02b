//! What the values and the linear combinations of the parts of a circuit are: each
//! theorem says it of the variables and the numbers that go in.

use vstd::arithmetic::div_mod::{lemma_fundamental_div_mod, lemma_mod_multiples_basic};
use vstd::arithmetic::power2::pow2;
use vstd::prelude::*;

use crate::bits::{
    bit, bit_value, bits_be, bits_le, le_sum, lemma_le_sum_bits, lemma_le_sum_range,
    lemma_prefix_step,
};
use crate::boolean::{boolean_terms, listed, opt_and, opt_bit, opt_bit_value, AllocatedBit, Boolean};
use crate::completeness::honest;
use crate::constraint_system::{
    added_hold, joined, texts, Allocation, AllocationView, Constraint, ConstraintView, Path,
    SynthesisError, SystemView,
};
use crate::decimal::{decimal, decimal_value, is_decimal, lemma_decimal_round_trip};
use crate::evaluation::{
    lemma_eval_boolean, lemma_eval_difference, lemma_eval_negated, lemma_eval_push,
    lemma_eval_scaled, lemma_eval_single, lemma_eval_sum, lemma_eval_unscaled,
};
use crate::expression::{
    as_booleans, converts, difference_of, known_bits, lemma_packed_next, num_pair_view, of_constant,
    of_variable, opt_choice, opt_difference, opt_equal, opt_sum, packed_terms, packed_value, sum_of,
    weight, weighted_terms, Expression,
};
use crate::field_lemmas::{lemma_fe_product, lemma_fe_range, lemma_fe_small, lemma_fe_sum};
use crate::fr::{fe, is_prime, limbs_value, modulus, opt_value, Fr};
use crate::linear_combination::{eval, is_assignment, negated, scaled, Assignment, Term, Variable};
use crate::num::{num_view, with_bool, with_number, AllocatedNum, AllocatedNumView, LinearView, Num};
use crate::soundness::{holds_bit, is_boolean, ones, truth, truths};
use crate::witness::{of_boolean, recorded, true_under};

verus! {

/// A residue lies within the field and differs from its number by a multiple of
/// the order.
pub proof fn residue_is_congruent(x: int)
    ensures
        0 <= fe(x) < modulus(),
        (x - fe(x)) % modulus() == 0,
{
    lemma_fe_range(x);
    lemma_fundamental_div_mod(x, modulus());
    lemma_mod_multiples_basic(x / modulus(), modulus());
    assert(modulus() * (x / modulus()) == (x / modulus()) * modulus()) by (nonlinear_arith);
}

/// Four limbs stand for a number to the base of two to the power of 64.
pub proof fn limbs_are_digits(limbs: [u64; 4])
    ensures
        limbs_value(limbs) == limbs@[0] + 0x1_0000_0000_0000_0000int * (limbs@[1]
            + 0x1_0000_0000_0000_0000int * (limbs@[2] + 0x1_0000_0000_0000_0000int * limbs@[3])),
{
}

/// The bits of a number are its binary digits, and all 256 of them come with the
/// most significant one first.
pub proof fn bits_are_binary_digits(v: int, k: nat)
    requires
        0 <= v,
    ensures
        v / (pow2(k) as int) == 2 * (v / (pow2(k + 1) as int)) + if bit(v, k as int) {
            1int
        } else {
            0int
        },
        bits_be(v).len() == 256,
        k < 256 ==> bits_be(v)[255 - k] == bit(v, k as int),
{
    lemma_prefix_step(v, k);
}

/// An optional element stands for its number, and nothing for nothing.
pub proof fn optional_values(x: Fr)
    ensures
        opt_value(Some(x)) == Some(x@),
        opt_value(None) == None::<int>,
{
}

/// A bit stands for one where it is true, and for zero where it is false.
pub proof fn bit_values(b: bool)
    ensures
        bit_value(true) == 1,
        bit_value(false) == 0,
        opt_bit_value(Some(b)) == Some(
            if b {
                1int
            } else {
                0int
            },
        ),
        opt_bit_value(None) == None::<int>,
{
}

/// What is made of two known values, and that nothing is made where one of them is
/// not known.
pub proof fn optional_operations(x: int, y: int, a: Option<int>)
    ensures
        opt_sum(Some(x), Some(y)) == Some(fe(x + y)),
        opt_difference(Some(x), Some(y)) == Some(fe(x - y)),
        opt_equal(Some(x), Some(y)) == Some(x == y),
        opt_sum(None, a) is None && opt_sum(a, None) is None,
        opt_difference(None, a) is None && opt_difference(a, None) is None,
        opt_equal(None, a) is None && opt_equal(a, None) is None,
{
}

/// The conjunction of two bits is known where both are.
pub proof fn optional_conjunction(x: bool, y: bool, a: Option<bool>)
    ensures
        opt_and(Some(x), Some(y)) == Some(x && y),
        opt_and(None, a) is None && opt_and(a, None) is None,
{
}

/// A choice is the first value where the condition is true, and the second where it
/// is false, whatever is known of the other; it is not known where the condition is
/// not.
pub proof fn optional_choice(a: Option<int>, b: Option<int>)
    ensures
        opt_choice(Some(true), a, b) == a,
        opt_choice(Some(false), a, b) == b,
        opt_choice(None, a, b) is None,
{
}

/// The bits of a known number are known.
pub proof fn optional_bits(v: int, i: int)
    ensures
        opt_bit(Some(v), i) == Some((v / (pow2(i as nat) as int)) % 2 == 1),
        opt_bit(None, i) is None,
{
}

/// A linear combination has the sum of its coefficients times what the variables
/// hold.
pub proof fn combination_is_a_sum(terms: Seq<Term>, var: Variable, coeff: int, w: Assignment)
    ensures
        eval(Seq::<Term>::empty(), w) == 0,
        eval(terms.push((var, coeff)), w) == fe(eval(terms, w) + coeff * w(var)),
{
    lemma_eval_push(terms, var, coeff, w);
}

/// What is put together, multiplied or negated term by term is so as a whole, and
/// keeps its variables.
pub proof fn combinations_are_linear(a: Seq<Term>, b: Seq<Term>, k: int, w: Assignment)
    ensures
        eval(a + b, w) == fe(eval(a, w) + eval(b, w)),
        eval(scaled(a, k), w) == fe(k * eval(a, w)),
        eval(negated(a), w) == fe(-eval(a, w)),
        scaled(a, k).len() == a.len() && negated(a).len() == a.len(),
        forall|i: int|
            0 <= i < a.len() ==> (#[trigger] scaled(a, k)[i]).0 == a[i].0 && fe(
                scaled(a, k)[i].1,
            ) == fe(a[i].1 * k),
        forall|i: int|
            0 <= i < a.len() ==> (#[trigger] negated(a)[i]).0 == a[i].0 && fe(negated(a)[i].1)
                == fe(-a[i].1),
{
    lemma_eval_sum(a, b, w);
    lemma_eval_scaled(a, k, w);
    lemma_eval_negated(a, w);
    assert(eval(a, w) * k == k * eval(a, w)) by (nonlinear_arith);
    assert forall|i: int| 0 <= i < a.len() implies fe(#[trigger] scaled(a, k)[i].1) == fe(
        a[i].1 * k,
    ) by {
        lemma_fe_range(a[i].1 * k);
        lemma_fe_small(fe(a[i].1 * k));
    }
    assert forall|i: int| 0 <= i < a.len() implies fe(#[trigger] negated(a)[i].1) == fe(
        -a[i].1,
    ) by {
        lemma_fe_range(-a[i].1);
        lemma_fe_small(fe(-a[i].1));
    }
}

/// A bit with a coefficient comes to the coefficient times what its variable holds,
/// its negation to the coefficient times what that leaves of one, and a constant to
/// the coefficient or to nothing.
pub proof fn bits_with_coefficients(v: AllocatedBit, one: Variable, coeff: int, w: Assignment)
    ensures
        eval(boolean_terms(Boolean::Is(v), one, coeff), w) == fe(coeff * w(v.variable)),
        eval(boolean_terms(Boolean::Not(v), one, coeff), w) == fe(
            coeff * (w(one) - w(v.variable)),
        ),
        w(one) == 1 ==> eval(boolean_terms(Boolean::Not(v), one, coeff), w) == fe(
            coeff * (1 - w(v.variable)),
        ),
        eval(boolean_terms(Boolean::Constant(true), one, coeff), w) == fe(coeff * w(one)),
        eval(boolean_terms(Boolean::Constant(false), one, coeff), w) == 0,
{
    let x = w(v.variable);
    let y = w(one);
    lemma_eval_single(v.variable, coeff, w);
    lemma_eval_single(one, coeff, w);
    lemma_eval_push(seq![(one, coeff)], v.variable, fe(-coeff), w);
    assert(seq![(one, coeff)].push((v.variable, fe(-coeff))) =~= boolean_terms(
        Boolean::Not(v),
        one,
        coeff,
    ));
    lemma_fe_product(-coeff, x);
    lemma_fe_sum(coeff * y, fe(-coeff) * x);
    lemma_fe_sum(coeff * y, -coeff * x);
    assert(coeff * y + -coeff * x == coeff * (y - x)) by (nonlinear_arith);
}

/// What is known of a bit: of an allocated one what it carries, of a negated one the
/// opposite, and of a constant its value.
pub proof fn values_of_bits(v: AllocatedBit, b: bool)
    ensures
        Boolean::Is(v).value() == v.value,
        v.value == Some(b) ==> Boolean::Not(v).value() == Some(!b),
        v.value is None ==> Boolean::Not(v).value() is None,
        Boolean::Constant(b).value() == Some(b),
{
}

/// The negation of a bit is true just where the bit is false.
pub proof fn negation_is_the_opposite(v: AllocatedBit, w: Assignment)
    requires
        w(Variable::spec_one()) == 1,
        w(v.variable) == 0 || w(v.variable) == 1,
    ensures
        truth(Boolean::Is(v), w) <==> w(v.variable) == 1,
        truth(Boolean::Not(v), w) <==> w(v.variable) == 0,
        truth(Boolean::Constant(true), w),
        !truth(Boolean::Constant(false), w),
{
    bits_with_coefficients(v, Variable::spec_one(), 1, w);
    lemma_fe_small(0);
    lemma_fe_small(1);
}

/// The expression of a bit has its value and its linear combination.
pub proof fn expression_of_a_bit(b: Boolean, w: Assignment)
    ensures
        b.value() is Some ==> of_boolean(b).value == Some(
            if b.value()->0 {
                1int
            } else {
                0int
            },
        ),
        b.value() is None ==> of_boolean(b).value is None,
        eval(of_boolean(b).terms, w) == eval(boolean_terms(b, Variable::spec_one(), 1), w),
{
}

/// The expression of a constant is that constant: the value that it carries, and its
/// value under every assignment.
pub proof fn expression_of_a_constant(v: int, w: Assignment)
    requires
        0 <= v < modulus(),
        w(Variable::spec_one()) == 1,
    ensures
        of_constant(v).value == Some(v),
        eval(of_constant(v).terms, w) == v,
{
    lemma_eval_single(Variable::spec_one(), v, w);
    lemma_fe_small(v);
}

/// The expression of a variable is what the variable holds, under every assignment,
/// and carries the value that the variable does.
pub proof fn expression_of_a_variable(var: Variable, value: Option<int>, w: Assignment)
    ensures
        of_variable(var, value).value == value,
        eval(of_variable(var, value).terms, w) == fe(w(var)),
        0 <= w(var) < modulus() ==> eval(of_variable(var, value).terms, w) == w(var),
{
    lemma_eval_single(var, 1, w);
    if 0 <= w(var) < modulus() {
        lemma_fe_small(w(var));
    }
}

/// The sum of two expressions is the sum of what they are under every assignment. It
/// carries the sum of their values where both are known, and none just where one is
/// not.
pub proof fn sum_of_expressions(a: LinearView, b: LinearView, w: Assignment)
    ensures
        eval(sum_of(a, b).terms, w) == fe(eval(a.terms, w) + eval(b.terms, w)),
        a.value is Some && b.value is Some ==> sum_of(a, b).value == Some(
            fe(a.value->0 + b.value->0),
        ),
        sum_of(a, b).value is None <==> a.value is None || b.value is None,
{
    lemma_eval_sum(a.terms, b.terms, w);
}

/// The difference of two expressions is the difference of what they are under every
/// assignment. It carries the difference of their values where both are known, and
/// none just where one is not.
pub proof fn difference_of_expressions(a: LinearView, b: LinearView, w: Assignment)
    ensures
        eval(difference_of(a, b).terms, w) == fe(eval(a.terms, w) - eval(b.terms, w)),
        a.value is Some && b.value is Some ==> difference_of(a, b).value == Some(
            fe(a.value->0 - b.value->0),
        ),
        difference_of(a, b).value is None <==> a.value is None || b.value is None,
{
    lemma_eval_difference(a.terms, b.terms, w);
}

/// A sum with a multiple of a variable added is so much more under every assignment,
/// and carries so much more where both values are known, and nothing otherwise.
pub proof fn number_added_to_a_sum(
    num: LinearView,
    variable: AllocatedNumView,
    coeff: int,
    w: Assignment,
)
    ensures
        eval(with_number(num, variable, coeff).terms, w) == fe(
            eval(num.terms, w) + coeff * w(variable.variable),
        ),
        num.value is Some && variable.value is Some ==> with_number(num, variable, coeff).value
            == Some(fe(num.value->0 + coeff * variable.value->0)),
        with_number(num, variable, coeff).value is None <==> num.value is None
            || variable.value is None,
{
    lemma_eval_push(num.terms, variable.variable, coeff, w);
    if variable.value is Some {
        let n = variable.value->0;
        assert(n * coeff == coeff * n) by (nonlinear_arith);
    }
}

/// A sum with a multiple of a bit added is so much more under every assignment, and
/// carries so much more where the bit is true, the same where it is false, and
/// nothing where one of the two is not known.
pub proof fn bit_added_to_a_sum(
    num: LinearView,
    one: Variable,
    b: Boolean,
    coeff: int,
    w: Assignment,
)
    ensures
        eval(with_bool(num, one, b, coeff).terms, w) == fe(
            eval(num.terms, w) + eval(boolean_terms(b, one, coeff), w),
        ),
        num.value is Some && b.value() == Some(true) ==> with_bool(num, one, b, coeff).value
            == Some(fe(num.value->0 + coeff)),
        num.value is Some && b.value() == Some(false) ==> with_bool(num, one, b, coeff).value
            == num.value,
        with_bool(num, one, b, coeff).value is None <==> num.value is None || b.value() is None,
{
    lemma_eval_sum(num.terms, boolean_terms(b, one, coeff), w);
}

/// Packed bits come to nothing where there are none, and each further one adds twice
/// the weight of the one before: to what the bits are under every assignment, and to
/// the value where all bits are known.
pub proof fn packed_bits_grow(bits: Seq<Boolean>, b: Boolean, w: Assignment)
    requires
        w(Variable::spec_one()) == 1,
    ensures
        eval(packed_terms(Seq::empty()), w) == 0,
        packed_value(Seq::empty()) == Some(0int),
        eval(packed_terms(bits.push(b)), w) == fe(
            eval(packed_terms(bits), w) + pow2(bits.len()) * eval(
                boolean_terms(b, Variable::spec_one(), 1),
                w,
            ),
        ),
        packed_value(bits) is Some && b.value() == Some(true) ==> packed_value(bits.push(b))
            == Some(fe(packed_value(bits)->0 + pow2(bits.len()))),
        packed_value(bits) is Some && b.value() == Some(false) ==> packed_value(bits.push(b))
            == packed_value(bits),
        packed_value(bits.push(b)) is None <==> packed_value(bits) is None || b.value() is None,
{
    let one = Variable::spec_one();
    let all = bits.push(b);
    let m = bits.len() as int;
    let p = pow2(bits.len()) as int;
    assert(known_bits(Seq::<Boolean>::empty()) == Some(Seq::<bool>::empty()));
    lemma_packed_next(all, m);
    assert(all.take(m) =~= bits);
    assert(all.take(m + 1) =~= all);
    let x = eval(boolean_terms(b, one, 1), w);
    lemma_eval_sum(packed_terms(bits), boolean_terms(b, one, weight(m)), w);
    lemma_eval_boolean(b, weight(m), w);
    lemma_fe_product(p, x);
    lemma_fe_sum(eval(packed_terms(bits), w), p * x);
    if packed_value(bits) is Some {
        lemma_fe_sum(packed_value(bits)->0, p);
    }
}

/// The value of packed bits is known just where all bits are.
pub proof fn packed_bits_are_known(bits: Seq<Boolean>)
    ensures
        packed_value(bits) is Some <==> forall|i: int|
            0 <= i < bits.len() ==> (#[trigger] bits[i]).value() is Some,
{
}

/// Bits stand for the number of which they are the digits: the number has them, and
/// is less than the next power of two.
pub proof fn bits_stand_for_their_number(bits: Seq<bool>, i: int)
    requires
        0 <= i < bits.len(),
    ensures
        0 <= le_sum(bits) < pow2(bits.len()),
        ((le_sum(bits) / (pow2(i as nat) as int)) % 2 == 1) == bits[i],
{
    lemma_le_sum_range(bits);
    lemma_le_sum_bits(bits, i);
}

/// Allocated bits with their weights are those of the number that they make.
pub proof fn weighted_bits_grow(bits: Seq<AllocatedBit>, b: AllocatedBit, w: Assignment)
    ensures
        eval(weighted_terms(bits.push(b)), w) == fe(
            eval(weighted_terms(bits), w) + pow2(bits.len()) * w(b.variable),
        ),
        as_booleans(bits).len() == bits.len(),
        forall|i: int| 0 <= i < bits.len() ==> #[trigger] as_booleans(bits)[i] == Boolean::Is(bits[i]),
{
    let p = pow2(bits.len()) as int;
    assert(weighted_terms(bits.push(b)) =~= weighted_terms(bits).push((b.variable, fe(p))));
    lemma_eval_push(weighted_terms(bits), b.variable, fe(p), w);
    lemma_fe_product(p, w(b.variable));
    lemma_fe_sum(eval(weighted_terms(bits), w), fe(p) * w(b.variable));
    lemma_fe_sum(eval(weighted_terms(bits), w), p * w(b.variable));
}

/// An allocated number converts into the expression of its variable.
pub proof fn number_converts(num: &AllocatedNum, e: Expression)
    requires
        converts(num, e),
    ensures
        e@.value == num@.value,
        e@.terms == seq![(num@.variable, 1int)],
{
}

/// An allocated bit converts into the expression of its variable.
pub proof fn bit_converts(b: &AllocatedBit, e: Expression)
    requires
        converts(b, e),
    ensures
        b.value is None ==> e@.value is None,
        b.value == Some(true) ==> e@.value == Some(1int),
        b.value == Some(false) ==> e@.value == Some(0int),
        e@.terms == seq![(b.variable, 1int)],
{
}

/// A sum converts into an expression that is the same under every assignment and
/// carries the same value.
pub proof fn sum_converts(num: &Num, e: Expression, w: Assignment)
    requires
        converts(num, e),
    ensures
        e@.value == num@.value,
        eval(e@.terms, w) == eval(num@.terms, w),
{
    lemma_eval_unscaled(num@.terms, w);
}

/// An expression converts into itself.
pub proof fn expression_converts(x: Expression, e: Expression)
    requires
        converts(x, e),
    ensures
        e@.value == x@.value,
        e@.terms == x@.terms,
{
}

/// What outcomes hold is what their views do.
pub proof fn views_of_outcomes(
    x: AllocatedNum,
    y: AllocatedNum,
    v: Vec<Boolean>,
    e: SynthesisError,
)
    ensures
        num_view(Ok(x)) == Ok::<AllocatedNumView, SynthesisError>(x@),
        num_view(Err(e)) == Err::<AllocatedNumView, SynthesisError>(e),
        num_pair_view(Ok((x, y))) == Ok::<(AllocatedNumView, AllocatedNumView), SynthesisError>(
            (x@, y@),
        ),
        num_pair_view(Err(e)) == Err::<(AllocatedNumView, AllocatedNumView), SynthesisError>(e),
        listed(Ok::<Vec<Boolean>, SynthesisError>(v)) == Ok::<Seq<Boolean>, SynthesisError>(v@),
        listed(Err::<Vec<Boolean>, SynthesisError>(e)) == Err::<Seq<Boolean>, SynthesisError>(e),
{
}

/// What a record becomes: a value is missing just where it is asked for and not
/// known, and kept just where it is asked for; a new variable has the next index;
/// names stand behind the open namespaces; and what is added goes to the end.
pub proof fn records_grow(
    cs: SystemView,
    name: Seq<char>,
    names: Path,
    value: Option<int>,
    k: int,
    aux: Seq<AllocationView>,
    constraints: Seq<ConstraintView>,
)
    ensures
        cs.lacks(value) <==> cs.evaluates && value is None,
        cs.evaluates ==> cs.allocation(names, value).value == value,
        !cs.evaluates ==> cs.allocation(names, value).value is None,
        cs.allocation(names, value).path == cs.path + names,
        cs.fresh(k) == Variable::Aux((cs.aux.len() + k) as usize),
        cs.grown(aux, constraints).evaluates == cs.evaluates,
        cs.grown(aux, constraints).path == cs.path,
        cs.grown(aux, constraints).aux == cs.aux + aux,
        cs.grown(aux, constraints).constraints == cs.constraints + constraints,
        cs.within(name).path == cs.path.push(name),
        cs.within(name).evaluates == cs.evaluates,
        cs.within(name).aux == cs.aux,
        cs.within(name).constraints == cs.constraints,
        cs.within(name).without() == cs,
        cs.without().evaluates == cs.evaluates,
        cs.without().aux == cs.aux,
        cs.without().constraints == cs.constraints,
        cs.path.len() > 0 ==> cs.without().path.push(cs.path.last()) == cs.path,
{
    assert(cs.path.push(name).drop_last() =~= cs.path);
    if cs.path.len() > 0 {
        assert(cs.path.drop_last().push(cs.path.last()) =~= cs.path);
    }
}

/// A recorded constraint holds its name behind the open namespaces, and its three
/// linear combinations.
pub proof fn constraints_are_kept(
    cs: SystemView,
    names: Path,
    a: Seq<Term>,
    b: Seq<Term>,
    c: Seq<Term>,
)
    ensures
        cs.constraint(names, a, b, c).path == cs.path + names,
        cs.constraint(names, a, b, c).a == a,
        cs.constraint(names, a, b, c).b == b,
        cs.constraint(names, a, b, c).c == c,
{
}

/// Variables hold what was recorded for them: the first input one, an auxiliary
/// variable its value where there is one, and nothing is known of the others.
pub proof fn variables_hold_their_values(cs: SystemView, i: usize)
    ensures
        cs.assigned(Variable::Input(i)) <==> i == 0,
        (cs.assignment())(Variable::Input(0)) == 1,
        cs.assigned(Variable::Aux(i)) <==> i < cs.aux.len() && cs.aux[i as int].value is Some,
        i < cs.aux.len() && cs.aux[i as int].value is Some ==> (cs.assignment())(Variable::Aux(i))
            == cs.aux[i as int].value->0,
{
}

/// A record is satisfied just where the values of all variables in its constraints
/// are known, and in each constraint the product of the first two linear
/// combinations is the third.
pub proof fn satisfaction(cs: SystemView, terms: Seq<Term>)
    ensures
        cs.covers(terms) <==> forall|i: int|
            0 <= i < terms.len() ==> cs.assigned((#[trigger] terms[i]).0),
        cs.satisfied() <==> forall|i: int|
            0 <= i < cs.constraints.len() ==> {
                let c = #[trigger] cs.constraints[i];
                let w = cs.assignment();
                &&& cs.covers(c.a) && cs.covers(c.b) && cs.covers(c.c)
                &&& fe(eval(c.a, w) * eval(c.b, w)) == eval(c.c, w)
            },
        forall|i: int|
            0 <= i < cs.constraints.len() ==> {
                let c = #[trigger] cs.constraints[i];
                let w = cs.assignment();
                cs.meets(c) <==> cs.covers(c.a) && cs.covers(c.b) && cs.covers(c.c) && fe(
                    eval(c.a, w) * eval(c.b, w),
                ) == eval(c.c, w)
            },
{
    if cs.satisfied() {
        assert forall|i: int| 0 <= i < cs.constraints.len() implies cs.meets(
            #[trigger] cs.constraints[i],
        ) by {}
    }
}

/// An assignment satisfies the constraints that a record has gained just where in
/// each of them the product of the first two linear combinations is the third, and
/// all constraints of the record just where it gives the first input one, every
/// variable a field element, and satisfies all of them.
pub proof fn satisfaction_by_an_assignment(cs: SystemView, later: SystemView, w: Assignment)
    ensures
        added_hold(cs, later, w) <==> forall|i: int|
            cs.constraints.len() <= i < later.constraints.len() ==> {
                let c = #[trigger] later.constraints[i];
                fe(eval(c.a, w) * eval(c.b, w)) == eval(c.c, w)
            },
        is_assignment(w) <==> w(Variable::Input(0)) == 1 && forall|var: Variable|
            0 <= #[trigger] w(var) < modulus(),
        later.satisfied_by(w) <==> is_assignment(w) && forall|i: int|
            0 <= i < later.constraints.len() ==> {
                let c = #[trigger] later.constraints[i];
                fe(eval(c.a, w) * eval(c.b, w)) == eval(c.c, w)
            },
{
    if added_hold(cs, later, w) {
        assert forall|i: int| cs.constraints.len() <= i < later.constraints.len() implies {
            let c = #[trigger] later.constraints[i];
            fe(eval(c.a, w) * eval(c.b, w)) == eval(c.c, w)
        } by {
            assert(later.constraints[i].holds(w));
        }
    }
    if later.satisfied_by(w) {
        assert forall|i: int| 0 <= i < later.constraints.len() implies {
            let c = #[trigger] later.constraints[i];
            fe(eval(c.a, w) * eval(c.b, w)) == eval(c.c, w)
        } by {
            assert(later.constraints[i].holds(w));
        }
    }
}

/// An assignment has the recorded values of what a record has gained just where each
/// new variable with a value holds it, and an expression is true under it just where
/// its linear combination has the value that it carries, if any.
pub proof fn truth_under_an_assignment(
    cs: SystemView,
    later: SystemView,
    e: LinearView,
    w: Assignment,
)
    ensures
        recorded(cs, later, w) <==> forall|i: int|
            cs.aux.len() <= i < later.aux.len() && (#[trigger] later.aux[i]).value is Some
                ==> later.aux[i].value == Some(w(Variable::Aux(i as usize))),
        true_under(e, w) <==> e.value is None || e.value == Some(eval(e.terms, w)),
{
}

/// What is recorded of a variable and of a constraint is what they hold.
pub proof fn records_hold_what_they_show(a: Allocation, c: Constraint)
    ensures
        a@.path == texts(a.path@),
        a@.value == opt_value(a.value),
        c@.path == texts(c.path@),
        c@.a == c.a@,
        c@.b == c.b@,
        c@.c == c.c@,
{
}

/// A record grows to another just where the other has all of it in its place, the
/// same namespaces open, and asks for values where it does.
pub proof fn growth(cs: SystemView, later: SystemView)
    ensures
        cs.grows_to(later) <==> {
            &&& cs.evaluates == later.evaluates
            &&& cs.path == later.path
            &&& cs.aux.len() <= later.aux.len()
            &&& cs.constraints.len() <= later.constraints.len()
            &&& forall|i: int| 0 <= i < cs.aux.len() ==> #[trigger] later.aux[i] == cs.aux[i]
            &&& forall|i: int|
                0 <= i < cs.constraints.len() ==> #[trigger] later.constraints[i]
                    == cs.constraints[i]
        },
{
    if cs.grows_to(later) {
        assert forall|i: int| 0 <= i < cs.aux.len() implies #[trigger] later.aux[i]
            == cs.aux[i] by {}
        assert forall|i: int| 0 <= i < cs.constraints.len() implies #[trigger] later.constraints[i]
            == cs.constraints[i] by {}
    }
    if cs.aux.len() <= later.aux.len() && forall|i: int|
        0 <= i < cs.aux.len() ==> #[trigger] later.aux[i] == cs.aux[i] {
        assert(later.aux.take(cs.aux.len() as int) =~= cs.aux);
    }
    if cs.constraints.len() <= later.constraints.len() && forall|i: int|
        0 <= i < cs.constraints.len() ==> #[trigger] later.constraints[i] == cs.constraints[i] {
        assert(later.constraints.take(cs.constraints.len() as int) =~= cs.constraints);
    }
}

/// An expression is honest in a record just where all its variables have recorded
/// values and the value that it carries, if any, is what they give it.
pub proof fn honesty(cs: SystemView, e: LinearView)
    ensures
        honest(cs, e) <==> {
            &&& forall|i: int| 0 <= i < e.terms.len() ==> cs.assigned((#[trigger] e.terms[i]).0)
            &&& e.value is None || e.value == Some(eval(e.terms, cs.assignment()))
        },
{
    satisfaction(cs, e.terms);
}

/// Bits under an assignment: a variable holds one where it holds zero or one, a bit
/// of a circuit is one where it comes to zero or one, and true where it comes to one.
pub proof fn bits_under_an_assignment(
    v: Seq<AllocatedBit>,
    bits: Seq<Boolean>,
    i: int,
    w: Assignment,
)
    requires
        0 <= i < v.len(),
        0 <= i < bits.len(),
    ensures
        holds_bit(v[i].variable, w) <==> w(v[i].variable) == 0 || w(v[i].variable) == 1,
        truth(bits[i], w) <==> eval(boolean_terms(bits[i], Variable::Input(0), 1), w) == 1,
        is_boolean(bits[i], w) <==> {
            let x = eval(boolean_terms(bits[i], Variable::Input(0), 1), w);
            x == 0 || x == 1
        },
        truths(bits, w).len() == bits.len() && truths(bits, w)[i] == truth(bits[i], w),
        ones(v, w).len() == v.len() && ones(v, w)[i] == (w(v[i].variable) == 1),
{
}

/// The least significant bits of a number, from the least significant one on.
pub proof fn bits_from_the_least_significant(v: int, n: nat, i: int)
    requires
        0 <= i < n,
    ensures
        bits_le(v, n).len() == n,
        bits_le(v, n)[i] == ((v / (pow2(i as nat) as int)) % 2 == 1),
{
}

/// A number is prime just where it exceeds one and no number in between divides it.
pub proof fn primes(p: int)
    ensures
        is_prime(p) <==> 1 < p && forall|d: int| 1 < d < p ==> #[trigger] (p % d) != 0,
{
}

/// Decimal digits are read from the first on, each ten times what comes behind it;
/// superfluous zeros, other characters and no digits at all are not taken.
pub proof fn decimal_digits(s: Seq<char>, c: char, i: usize)
    ensures
        decimal_value(Seq::empty()) == 0,
        decimal_value(s.push(c)) == 10 * decimal_value(s) + (c as int - '0' as int),
        is_decimal(s) <==> {
            &&& s.len() > 0
            &&& forall|j: int| 0 <= j < s.len() ==> '0' <= #[trigger] s[j] <= '9'
            &&& s.len() > 1 ==> s[0] != '0'
        },
        is_decimal(decimal(i as nat)),
        decimal_value(decimal(i as nat)) == i,
{
    assert(s.push(c).drop_last() =~= s);
    lemma_decimal_round_trip(i as nat);
    if is_decimal(s) {
        assert forall|j: int| 0 <= j < s.len() implies '0' <= #[trigger] s[j] <= '9' by {
            assert(48 <= (s[j] as int) <= 57);
        }
    }
}

/// An operand converts into the expression that its conversion gives.
pub proof fn operands_convert<EX: Into<Expression>>(x: EX, e: Expression)
    ensures
        converts(x, e) <==> call_ensures(<EX as Into<Expression>>::into, (x,), e),
{
}

/// Joined names have a slash between each and the next.
pub proof fn names_are_joined(names: Path, name: Seq<char>, list: Seq<String>)
    ensures
        joined(seq![name]) == name,
        names.len() > 0 ==> joined(names.push(name)) == joined(names) + "/"@ + name,
        texts(list).len() == list.len(),
        forall|i: int| 0 <= i < list.len() ==> #[trigger] texts(list)[i] == list[i]@,
{
    assert(names.push(name).drop_last() =~= names);
}

} // verus!
