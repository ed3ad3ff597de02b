//! What the constraints of the gadgets enforce: of every assignment that
//! satisfies the ones that a gadget adds, whichever values were recorded.

use vstd::arithmetic::div_mod::lemma_mod_decreases;
use vstd::arithmetic::power2::{lemma_pow2_strictly_increases, pow2};
use vstd::prelude::*;

use crate::bits::{
    bit, bit_value, bits_le, le_sum, lemma_le_sum_bits, lemma_le_sum_range, lemma_le_sum_split,
    lemma_powers_around_modulus,
};
use crate::boolean::{
    and_allocated, bit_allocated, bit_allocated_conditionally, bit_name, bits_allocated,
    boolean_constraint, boolean_terms, conditional_constraint, AllocatedBit, Boolean,
};
use crate::constraint_system::{added_hold, Path, SystemView};
use crate::evaluation::{
    lemma_eval_boolean, lemma_eval_difference, lemma_eval_push, lemma_eval_range, lemma_eval_sum,
    lemma_eval_unscaled, lemma_eval_variable,
};
use crate::expression::{
    as_booleans, bits_outcome, difference_terms, equals_outcome, limit_outcome, packed_terms,
    reverse_outcome, select_ifeq_outcome, select_outcome, unpacking_constraint, weight,
    weighted_terms,
};
use crate::field_lemmas::{
    lemma_difference_zero, lemma_fe_difference, lemma_fe_product, lemma_fe_range, lemma_fe_small,
    lemma_fe_sum, lemma_no_zero_divisors, lemma_own_square,
};
use crate::fr::{fe, is_prime, modulus, NUM_BITS};
use crate::linear_combination::{eval, is_assignment, scaled, Assignment, Term, Variable};
use crate::num::LinearView;

verus! {

/// Whether a variable holds a bit.
pub open spec fn holds_bit(var: Variable, w: Assignment) -> bool {
    w(var) == 0 || w(var) == 1
}

/// Whether a bit of a circuit is true.
pub open spec fn truth(b: Boolean, w: Assignment) -> bool {
    eval(boolean_terms(b, Variable::spec_one(), 1), w) == 1
}

/// Whether a bit of a circuit is true or false.
pub open spec fn is_boolean(b: Boolean, w: Assignment) -> bool {
    eval(boolean_terms(b, Variable::spec_one(), 1), w) == bit_value(truth(b, w))
}

/// What is added in two steps holds where what each of them adds does.
pub proof fn lemma_added_between(
    cs: SystemView,
    between: SystemView,
    later: SystemView,
    w: Assignment,
)
    requires
        cs.constraints.len() <= between.constraints.len(),
        between.constraints.is_prefix_of(later.constraints),
    ensures
        added_hold(cs, later, w) <==> added_hold(cs, between, w) && added_hold(between, later, w),
{
    if added_hold(cs, later, w) {
        assert forall|i: int|
            cs.constraints.len() <= i < between.constraints.len() implies (
        #[trigger] between.constraints[i]).holds(w) by {
            assert(later.constraints[i] == between.constraints[i]);
        }
    }
    if added_hold(cs, between, w) && added_hold(between, later, w) {
        assert forall|i: int|
            cs.constraints.len() <= i < later.constraints.len() implies (
        #[trigger] later.constraints[i]).holds(w) by {
            if i < between.constraints.len() {
                assert(later.constraints[i] == between.constraints[i]);
            }
        }
    }
}

/// The value of `1 - var`.
pub proof fn lemma_one_less(var: Variable, w: Assignment)
    requires
        w(Variable::spec_one()) == 1,
    ensures
        eval(seq![(Variable::spec_one(), 1int), (var, fe(-1))], w) == fe(1 - w(var)),
{
    let one = Variable::spec_one();
    lemma_eval_variable(one, w);
    lemma_eval_push(seq![(one, 1int)], var, fe(-1), w);
    assert(seq![(one, 1int)].push((var, fe(-1))) =~= seq![(one, 1int), (var, fe(-1))]);
    lemma_fe_product(-1, w(var));
    lemma_fe_sum(1, fe(-1) * w(var));
    lemma_fe_sum(1, -1 * w(var));
}

/// The boolean constraint enforces zero or one.
pub proof fn lemma_boolean_constraint(cs: SystemView, names: Path, var: Variable, w: Assignment)
    requires
        is_prime(modulus()),
        is_assignment(w),
        boolean_constraint(cs, names, var).holds(w),
    ensures
        holds_bit(var, w),
{
    lemma_one_less(var, w);
    lemma_eval_variable(var, w);
    lemma_fe_product(1 - w(var), w(var));
    lemma_own_square(w(var));
}

/// The conditional boolean constraint enforces zero or one, and zero where the
/// other variable holds one.
pub proof fn lemma_conditional_constraint(
    cs: SystemView,
    names: Path,
    must_be_false: Variable,
    var: Variable,
    w: Assignment,
)
    requires
        is_prime(modulus()),
        is_assignment(w),
        holds_bit(must_be_false, w),
        conditional_constraint(cs, names, must_be_false, var).holds(w),
    ensures
        holds_bit(var, w),
        w(must_be_false) == 1 ==> w(var) == 0,
{
    let one = Variable::spec_one();
    let m = w(must_be_false);
    let x = w(var);
    let first = seq![(one, 1int), (must_be_false, fe(-1))];
    lemma_one_less(must_be_false, w);
    lemma_eval_push(first, var, fe(-1), w);
    assert(first.push((var, fe(-1))) =~= seq![
        (one, 1int),
        (must_be_false, fe(-1)),
        (var, fe(-1)),
    ]);
    lemma_fe_product(-1, x);
    lemma_fe_sum(fe(1 - m), fe(-1) * x);
    lemma_fe_sum(fe(1 - m), -1 * x);
    lemma_fe_sum(1 - m, -1 * x);
    lemma_eval_variable(var, w);
    lemma_fe_product(1 - m - x, x);
    if m == 0 {
        lemma_own_square(x);
    } else {
        lemma_no_zero_divisors(-x, x);
        lemma_fe_small(x);
        lemma_difference_zero(0, x);
    }
}

/// An allocated bit is zero or one.
pub proof fn allocated_bit_is_boolean(cs: SystemView, value: Option<bool>, w: Assignment)
    requires
        is_prime(modulus()),
        bit_allocated(cs, value).1 is Ok,
        is_assignment(w),
        added_hold(cs, bit_allocated(cs, value).0, w),
    ensures
        holds_bit((bit_allocated(cs, value).1->Ok_0).variable, w),
{
    let constraint = boolean_constraint(cs, seq!["boolean constraint"@], cs.fresh(0));
    assert(bit_allocated(cs, value).0.constraints[cs.constraints.len() as int] == constraint);
    lemma_boolean_constraint(cs, seq!["boolean constraint"@], cs.fresh(0), w);
}

/// A conditionally allocated bit is zero or one, and zero where the condition is
/// one.
pub proof fn conditional_bit_is_sound(
    cs: SystemView,
    value: Option<bool>,
    must_be_false: Variable,
    w: Assignment,
)
    requires
        is_prime(modulus()),
        holds_bit(must_be_false, w),
        bit_allocated_conditionally(cs, value, must_be_false).1 is Ok,
        is_assignment(w),
        added_hold(cs, bit_allocated_conditionally(cs, value, must_be_false).0, w),
    ensures
        ({
            let var = (bit_allocated_conditionally(cs, value, must_be_false).1->Ok_0).variable;
            holds_bit(var, w) && (w(must_be_false) == 1 ==> w(var) == 0)
        }),
{
    let names = seq!["boolean constraint"@];
    let constraint = conditional_constraint(cs, names, must_be_false, cs.fresh(0));
    assert(bit_allocated_conditionally(cs, value, must_be_false).0.constraints[
        cs.constraints.len() as int
    ] == constraint);
    lemma_conditional_constraint(cs, names, must_be_false, cs.fresh(0), w);
}

/// The conjunction of two bits is one just where both are.
pub proof fn and_is_sound(cs: SystemView, a: AllocatedBit, b: AllocatedBit, w: Assignment)
    requires
        holds_bit(a.variable, w),
        holds_bit(b.variable, w),
        and_allocated(cs, a, b).1 is Ok,
        is_assignment(w),
        added_hold(cs, and_allocated(cs, a, b).0, w),
    ensures
        w((and_allocated(cs, a, b).1->Ok_0).variable) == bit_value(
            w(a.variable) == 1 && w(b.variable) == 1,
        ),
{
    let constraint = cs.constraint(
        seq!["and constraint"@],
        seq![(a.variable, 1int)],
        seq![(b.variable, 1int)],
        seq![(cs.fresh(0), 1int)],
    );
    assert(and_allocated(cs, a, b).0.constraints[cs.constraints.len() as int] == constraint);
    lemma_eval_variable(a.variable, w);
    lemma_eval_variable(b.variable, w);
    lemma_eval_variable(cs.fresh(0), w);
    let x = w(a.variable);
    let y = w(b.variable);
    assert(x * y == bit_value(x == 1 && y == 1)) by (nonlinear_arith)
        requires
            x == 0 || x == 1,
            y == 0 || y == 1,
    ;
}

/// The bit that a comparison allocates is one where the two expressions have the
/// same value, and zero where they differ.
pub proof fn equals_is_sound(cs: SystemView, a: LinearView, b: LinearView, w: Assignment)
    requires
        is_prime(modulus()),
        equals_outcome(cs, a, b).1 is Ok,
        is_assignment(w),
        added_hold(cs, equals_outcome(cs, a, b).0, w),
    ensures
        w((equals_outcome(cs, a, b).1->Ok_0).variable) == bit_value(
            eval(a.terms, w) == eval(b.terms, w),
        ),
{
    let later = equals_outcome(cs, a, b).0;
    let n = cs.constraints.len() as int;
    let r = cs.fresh(0);
    let x = cs.fresh(1);
    let one = Variable::spec_one();
    let va = eval(a.terms, w);
    let vb = eval(b.terms, w);
    assert(later.constraints[n + 1].holds(w));
    assert(later.constraints[n + 2].holds(w));
    lemma_eval_difference(a.terms, b.terms, w);
    lemma_eval_range(a.terms, w);
    lemma_eval_range(b.terms, w);
    lemma_difference_zero(va, vb);
    lemma_eval_variable(r, w);
    lemma_eval_variable(x, w);
    lemma_eval_push(seq![(r, 1int)], one, fe(-1), w);
    assert(seq![(r, 1int)].push((one, fe(-1))) =~= seq![(r, 1int), (one, fe(-1))]);
    assert(fe(-1) * w(one) == fe(-1));
    lemma_fe_sum(w(r), -1);
    let delta = fe(va - vb);
    assert(fe(delta * w(r)) == 0);
    assert(fe(delta * w(x)) == fe(w(r) - 1));
    if va == vb {
        assert(delta * w(x) == 0) by (nonlinear_arith)
            requires
                delta == 0,
        ;
        lemma_difference_zero(w(r), 1);
    } else {
        lemma_no_zero_divisors(fe(va - vb), w(r));
        lemma_fe_difference(va, vb);
        lemma_fe_range(va - vb);
        lemma_fe_small(fe(va - vb));
        lemma_fe_small(w(r));
    }
}

/// What a selection allocates is the first expression where the condition is
/// true, and the second where it is false.
pub proof fn select_is_sound(
    cs: SystemView,
    a: LinearView,
    b: LinearView,
    condition: Boolean,
    w: Assignment,
)
    requires
        is_boolean(condition, w),
        select_outcome(cs, a, b, condition).1 is Ok,
        is_assignment(w),
        added_hold(cs, select_outcome(cs, a, b, condition).0, w),
    ensures
        w((select_outcome(cs, a, b, condition).1->Ok_0).variable) == if truth(condition, w) {
            eval(a.terms, w)
        } else {
            eval(b.terms, w)
        },
{
    let later = select_outcome(cs, a, b, condition).0;
    let n = cs.constraints.len() as int;
    let c = cs.fresh(0);
    let va = eval(a.terms, w);
    let vb = eval(b.terms, w);
    assert(later.constraints[n].holds(w));
    lemma_eval_difference(a.terms, b.terms, w);
    lemma_eval_range(a.terms, w);
    lemma_eval_range(b.terms, w);
    lemma_eval_variable(c, w);
    lemma_eval_difference(seq![(c, 1int)], scaled(b.terms, 1), w);
    lemma_eval_unscaled(b.terms, w);
    // (a - b) * condition == c - b
    if truth(condition, w) {
        lemma_fe_range(va - vb);
        lemma_fe_small(fe(va - vb));
        lemma_same_difference(va, w(c), vb);
    } else {
        lemma_difference_zero(w(c), vb);
    }
}

/// Two elements that exceed a third by the same are the same.
proof fn lemma_same_difference(x: int, y: int, z: int)
    requires
        0 <= x < modulus(),
        0 <= y < modulus(),
        fe(x - z) == fe(y - z),
    ensures
        x == y,
{
    lemma_fe_difference(x - z, y - z);
    lemma_difference_zero(x, y);
}

/// Two elements of which the differences to a third are the same are the same.
proof fn lemma_same_complement(x: int, y: int, z: int)
    requires
        0 <= x < modulus(),
        0 <= y < modulus(),
        fe(z - x) == fe(z - y),
    ensures
        x == y,
{
    lemma_fe_difference(z - x, z - y);
    lemma_difference_zero(y, x);
}

/// What a conditional reversal allocates is the two expressions in reverse order
/// where the condition is true, and in their order where it is false.
pub proof fn reverse_is_sound(
    cs: SystemView,
    a: LinearView,
    b: LinearView,
    condition: Boolean,
    w: Assignment,
)
    requires
        is_boolean(condition, w),
        reverse_outcome(cs, a, b, condition).1 is Ok,
        is_assignment(w),
        added_hold(cs, reverse_outcome(cs, a, b, condition).0, w),
    ensures
        ({
            let (c, d) = reverse_outcome(cs, a, b, condition).1->Ok_0;
            if truth(condition, w) {
                w(c.variable) == eval(b.terms, w) && w(d.variable) == eval(a.terms, w)
            } else {
                w(c.variable) == eval(a.terms, w) && w(d.variable) == eval(b.terms, w)
            }
        }),
{
    let later = reverse_outcome(cs, a, b, condition).0;
    let (c, d) = reverse_outcome(cs, a, b, condition).1->Ok_0;
    let n = cs.constraints.len() as int;
    assert(later.constraints[n].holds(w));
    assert(later.constraints[n + 1].holds(w));
    lemma_reversed(a, b, condition, c.variable, w);
    lemma_reversed(b, a, condition, d.variable, w);
}

/// The constraint `(a - b) * condition = a - c` makes `c` the choice between the
/// two.
proof fn lemma_reversed(a: LinearView, b: LinearView, condition: Boolean, c: Variable, w: Assignment)
    requires
        is_assignment(w),
        is_boolean(condition, w),
        fe(
            eval(difference_terms(a.terms, b.terms), w) * eval(
                boolean_terms(condition, Variable::spec_one(), 1),
                w,
            ),
        ) == eval(scaled(a.terms, 1).push((c, fe(-1))), w),
    ensures
        w(c) == if truth(condition, w) {
            eval(b.terms, w)
        } else {
            eval(a.terms, w)
        },
{
    let va = eval(a.terms, w);
    let vb = eval(b.terms, w);
    lemma_eval_difference(a.terms, b.terms, w);
    lemma_eval_range(a.terms, w);
    lemma_eval_range(b.terms, w);
    lemma_eval_push(scaled(a.terms, 1), c, fe(-1), w);
    lemma_eval_unscaled(a.terms, w);
    lemma_fe_product(-1, w(c));
    lemma_fe_sum(va, fe(-1) * w(c));
    lemma_fe_sum(va, -1 * w(c));
    if truth(condition, w) {
        lemma_fe_range(va - vb);
        lemma_fe_small(fe(va - vb));
        lemma_same_complement(vb, w(c), va);
    } else {
        lemma_difference_zero(va, w(c));
    }
}

/// What a selection by comparison allocates is `x` where `a` and `b` have the
/// same value, and `y` where they differ.
pub proof fn select_ifeq_is_sound(
    cs: SystemView,
    a: LinearView,
    b: LinearView,
    x: LinearView,
    y: LinearView,
    w: Assignment,
)
    requires
        is_prime(modulus()),
        select_ifeq_outcome(cs, a, b, x, y).1 is Ok,
        is_assignment(w),
        added_hold(cs, select_ifeq_outcome(cs, a, b, x, y).0, w),
    ensures
        w((select_ifeq_outcome(cs, a, b, x, y).1->Ok_0).variable) == if eval(a.terms, w) == eval(
            b.terms,
            w,
        ) {
            eval(x.terms, w)
        } else {
            eval(y.terms, w)
        },
{
    let (compared, eq) = equals_outcome(cs.within("eq"@), a, b);
    let bit = eq->Ok_0;
    let start = compared.without().within("select"@);
    let (selected, r) = select_outcome(start, x, y, Boolean::Is(bit));
    let later = selected.without();
    lemma_added_between(cs, compared, later, w);
    assert(added_hold(cs.within("eq"@), compared, w)) by {
        assert(added_hold(cs, compared, w));
    }
    assert(added_hold(start, selected, w)) by {
        assert(added_hold(compared, later, w));
        assert(selected.constraints == later.constraints);
    }
    equals_is_sound(cs.within("eq"@), a, b, w);
    lemma_eval_variable(bit.variable, w);
    select_is_sound(start, x, y, Boolean::Is(bit), w);
}

/// Which bits of a circuit are true.
pub open spec fn truths(bits: Seq<Boolean>, w: Assignment) -> Seq<bool> {
    Seq::new(bits.len(), |i: int| truth(bits[i], w))
}

/// Which variables of bits hold one.
pub open spec fn ones(bits: Seq<AllocatedBit>, w: Assignment) -> Seq<bool> {
    Seq::new(bits.len(), |i: int| w(bits[i].variable) == 1)
}

/// Allocated bits are true where their variables hold one.
pub proof fn lemma_truths(bits: Seq<AllocatedBit>, w: Assignment)
    requires
        forall|i: int| 0 <= i < bits.len() ==> holds_bit((#[trigger] bits[i]).variable, w),
    ensures
        truths(as_booleans(bits), w) == ones(bits, w),
{
    assert forall|i: int| 0 <= i < bits.len() implies truth(as_booleans(bits)[i], w) == (w(
        #[trigger] bits[i].variable,
    ) == 1) by {
        assert(holds_bit(bits[i].variable, w));
        lemma_eval_variable(bits[i].variable, w);
    }
    assert(truths(as_booleans(bits), w) =~= ones(bits, w));
}

/// The value of bits with their weights is the number of which they are the bits.
pub proof fn lemma_eval_weighted(bits: Seq<AllocatedBit>, w: Assignment)
    requires
        forall|i: int| 0 <= i < bits.len() ==> holds_bit((#[trigger] bits[i]).variable, w),
    ensures
        eval(weighted_terms(bits), w) == fe(le_sum(ones(bits, w))),
    decreases bits.len(),
{
    if bits.len() > 0 {
        let m = bits.len() - 1;
        let rest = bits.drop_last();
        assert forall|i: int| 0 <= i < rest.len() implies holds_bit((#[trigger] rest[i]).variable, w) by {
            assert(rest[i] == bits[i]);
        }
        lemma_eval_weighted(rest, w);
        assert(weighted_terms(bits).drop_last() =~= weighted_terms(rest));
        assert(ones(bits, w).drop_last() =~= ones(rest, w));
        assert(holds_bit(bits[m].variable, w));
        let p = pow2(m as nat) as int;
        let x = w(bits[m].variable);
        lemma_fe_product(p, x);
        lemma_fe_sum(le_sum(ones(rest, w)), fe(p) * x);
        lemma_fe_sum(le_sum(ones(rest, w)), p * x);
        assert(p * x == x * p) by (nonlinear_arith);
    }
}

/// The value of bits of a circuit with their weights is the number of which they
/// are the bits.
pub proof fn lemma_eval_packed(bits: Seq<Boolean>, w: Assignment)
    requires
        w(Variable::spec_one()) == 1,
        forall|i: int| 0 <= i < bits.len() ==> is_boolean(#[trigger] bits[i], w),
    ensures
        eval(packed_terms(bits), w) == fe(le_sum(truths(bits, w))),
    decreases bits.len(),
{
    if bits.len() > 0 {
        let m = bits.len() - 1;
        let rest = bits.drop_last();
        assert forall|i: int| 0 <= i < rest.len() implies is_boolean(#[trigger] rest[i], w) by {
            assert(rest[i] == bits[i]);
        }
        lemma_eval_packed(rest, w);
        assert(truths(bits, w).drop_last() =~= truths(rest, w));
        assert(is_boolean(bits[m], w));
        let p = pow2(m as nat) as int;
        let x = bit_value(truth(bits[m], w));
        lemma_eval_boolean(bits[m], weight(m), w);
        lemma_fe_product(p, x);
        lemma_eval_sum(
            packed_terms(rest),
            boolean_terms(bits[m], Variable::spec_one(), weight(m)),
            w,
        );
        lemma_fe_sum(le_sum(truths(rest, w)), p * x);
        assert(p * x == x * p) by (nonlinear_arith);
    }
}

/// The unpacking constraint enforces that the bits are those of a number that is
/// congruent to the expression.
pub proof fn lemma_unpacking_constraint(
    cs: SystemView,
    bits: Seq<AllocatedBit>,
    terms: Seq<Term>,
    w: Assignment,
)
    requires
        unpacking_constraint(cs, bits, terms).holds(w),
        forall|i: int| 0 <= i < bits.len() ==> holds_bit((#[trigger] bits[i]).variable, w),
    ensures
        eval(terms, w) == fe(le_sum(ones(bits, w))),
{
    lemma_eval_weighted(bits, w);
    lemma_eval_difference(weighted_terms(bits), scaled(terms, 1), w);
    lemma_eval_unscaled(terms, w);
    lemma_eval_range(terms, w);
    lemma_eval_range(weighted_terms(bits), w);
    lemma_difference_zero(eval(weighted_terms(bits), w), eval(terms, w));
}

/// The bits into which an expression is decomposed are zero or one, and those of
/// a number that is congruent to the expression.
pub proof fn bits_are_sound(cs: SystemView, e: LinearView, n: nat, w: Assignment)
    requires
        is_prime(modulus()),
        bits_outcome(cs, e, n).1 is Ok,
        is_assignment(w),
        added_hold(cs, bits_outcome(cs, e, n).0, w),
    ensures
        ({
            let bits = bits_outcome(cs, e, n).1->Ok_0;
            &&& bits.len() == n
            &&& forall|i: int| 0 <= i < n ==> is_boolean(#[trigger] bits[i], w)
            &&& eval(e.terms, w) == fe(le_sum(truths(bits, w)))
        }),
{
    let later = bits_outcome(cs, e, n).0;
    let (allocated, r) = bits_allocated(cs, e.value, n);
    let bits = r->Ok_0;
    let c = cs.constraints.len() as int;
    assert forall|i: int| 0 <= i < n implies holds_bit((#[trigger] bits[i]).variable, w) by {
        let names = seq![bit_name(i), "boolean constraint"@];
        assert(later.constraints[c + i] == boolean_constraint(cs, names, cs.fresh(i)));
        lemma_boolean_constraint(cs, names, cs.fresh(i), w);
    }
    assert(later.constraints[c + n] == unpacking_constraint(allocated, bits, e.terms));
    lemma_unpacking_constraint(allocated, bits, e.terms, w);
    lemma_truths(bits, w);
    let all = as_booleans(bits);
    assert forall|i: int| 0 <= i < n implies is_boolean(#[trigger] all[i], w) by {
        assert(holds_bit(bits[i].variable, w));
        lemma_eval_variable(bits[i].variable, w);
    }
}

/// An expression that is decomposed into fewer bits than the field takes is the
/// number of which they are the bits, and so within their range.
pub proof fn fixed_bits_are_sound(cs: SystemView, e: LinearView, n: nat, w: Assignment)
    requires
        is_prime(modulus()),
        n < NUM_BITS,
        bits_outcome(cs, e, n).1 is Ok,
        is_assignment(w),
        added_hold(cs, bits_outcome(cs, e, n).0, w),
    ensures
        ({
            let bits = bits_outcome(cs, e, n).1->Ok_0;
            &&& truths(bits, w) == bits_le(eval(e.terms, w), n)
            &&& eval(e.terms, w) < pow2(n)
        }),
{
    bits_are_sound(cs, e, n, w);
    let bits = bits_outcome(cs, e, n).1->Ok_0;
    let t = truths(bits, w);
    lemma_le_sum_range(t);
    lemma_powers_around_modulus();
    if n < 254 {
        lemma_pow2_strictly_increases(n, 254);
    }
    lemma_fe_small(le_sum(t));
    assert forall|i: int| 0 <= i < n implies t[i] == bit(le_sum(t), i) by {
        lemma_le_sum_bits(t, i);
    }
    assert(t =~= bits_le(le_sum(t), n));
}

/// The bits into which an expression is decomposed give the expression back when
/// they are packed again.
pub proof fn packing_undoes_unpacking(cs: SystemView, e: LinearView, n: nat, w: Assignment)
    requires
        is_prime(modulus()),
        bits_outcome(cs, e, n).1 is Ok,
        is_assignment(w),
        added_hold(cs, bits_outcome(cs, e, n).0, w),
    ensures
        eval(scaled(packed_terms(bits_outcome(cs, e, n).1->Ok_0), 1), w) == eval(e.terms, w),
{
    bits_are_sound(cs, e, n, w);
    let bits = bits_outcome(cs, e, n).1->Ok_0;
    lemma_eval_packed(bits, w);
    lemma_eval_unscaled(packed_terms(bits), w);
}

/// An expression whose number of bits is limited is within their range.
pub proof fn limit_is_sound(cs: SystemView, e: LinearView, n: nat, w: Assignment)
    requires
        is_prime(modulus()),
        n <= NUM_BITS,
        limit_outcome(cs, e, n).1 is Ok,
        is_assignment(w),
        added_hold(cs, limit_outcome(cs, e, n).0, w),
    ensures
        eval(e.terms, w) < pow2(n),
{
    let later = limit_outcome(cs, e, n).0;
    let start = cs.within("unpack to limit number of bits"@);
    let (unpacked, r) = bits_outcome(start, e, NUM_BITS as nat);
    let bits = r->Ok_0;
    let c = unpacked.constraints.len() as int;
    lemma_added_between(cs, unpacked, later, w);
    assert(added_hold(start, unpacked, w)) by {
        assert(added_hold(cs, unpacked, w));
    }
    bits_are_sound(start, e, NUM_BITS as nat, w);
    let top = bits.skip(n as int);
    assert(later.constraints[c].holds(w));
    assert forall|i: int| 0 <= i < top.len() implies is_boolean(#[trigger] top[i], w) by {
        assert(top[i] == bits[n + i]);
    }
    lemma_eval_packed(top, w);
    lemma_eval_unscaled(packed_terms(top), w);
    let t = truths(bits, w);
    let high = truths(top, w);
    assert(high =~= t.skip(n as int));
    let low = t.take(n as int);
    assert(fe(le_sum(high)) == 0) by {
        assert(eval(later.constraints[c].a, w) == 0);
        assert(0 * eval(later.constraints[c].b, w) == 0);
    }
    lemma_le_sum_split(t, n as int);
    lemma_le_sum_range(low);
    lemma_le_sum_range(high);
    // The higher bits come to a multiple of the order, so the lower ones are
    // congruent to the expression.
    let p = pow2(n) as int;
    lemma_fe_product(p, le_sum(high));
    lemma_fe_sum(le_sum(low), p * le_sum(high));
    assert(fe(p * 0) == 0);
    assert(eval(e.terms, w) == fe(le_sum(low)));
    lemma_mod_decreases(le_sum(low) as nat, modulus() as nat);
}

} // verus!
