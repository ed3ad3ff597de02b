//! Linear expressions over the variables of a circuit, and the gadgets that
//! compare, select and decompose them.

use std::ops::{Add, Sub};
use vstd::arithmetic::power2::pow2;
use vstd::prelude::*;

use crate::bits::{bit_value, le_sum};
use crate::boolean::{
    bits_allocated, boolean_constraint, boolean_terms, field_into_allocated_bits_le,
    field_into_allocated_bits_le_fixed, lemma_bit_in_namespace, listed, opt_bit_value, AllocatedBit,
    Boolean,
};
use crate::constraint_system::{
    lemma_nested, lemma_unnested, ConstraintSystem, ConstraintView, SynthesisError, SystemView,
};
use crate::decimal::{lemma_decimal_round_trip, u64_to_string};
use crate::field_lemmas::{lemma_difference_zero, lemma_negated_product};
use crate::fr::{fe, inverse, modulus, opt_value, Fr, NUM_BITS};
use crate::linear_combination::{negated, scaled, LinearCombination, Term, Variable};
use crate::num::{num_view, AllocatedNum, AllocatedNumView, LinearView, Num};

verus! {

/// A linear combination of variables together with its value, where that is
/// known.
pub struct Expression {
    value: Option<Fr>,
    lc: LinearCombination,
}

impl View for Expression {
    type V = LinearView;

    closed spec fn view(&self) -> LinearView {
        LinearView { value: opt_value(self.value), terms: self.lc@ }
    }
}

impl Clone for Expression {
    fn clone(&self) -> (r: Expression)
        ensures
            r@ == self@,
    {
        Expression { value: self.value, lc: self.lc.clone() }
    }
}

/// `<T as From<T>>::from` of the standard library: the argument unchanged.
pub assume_specification<A>[ <A as std::convert::From<A>>::from ](t: A) -> (r: A)
    ensures
        r == t,
;

/// Whether `x` converts into the expression `e`.
pub open spec fn converts<EX: Into<Expression>>(x: EX, e: Expression) -> bool {
    call_ensures(<EX as Into<Expression>>::into, (x,), e)
}

/// The expression of a variable.
pub open spec fn of_variable(variable: Variable, value: Option<int>) -> LinearView {
    LinearView { value, terms: seq![(variable, 1int)] }
}

/// The expression of a constant.
pub open spec fn of_constant(value: int) -> LinearView {
    LinearView { value: Some(value), terms: seq![(Variable::spec_one(), value)] }
}

/// The sum of two values, where both are known.
pub open spec fn opt_sum(a: Option<int>, b: Option<int>) -> Option<int> {
    match (a, b) {
        (Some(a), Some(b)) => Some(fe(a + b)),
        _ => None,
    }
}

/// The difference of two values, where both are known.
pub open spec fn opt_difference(a: Option<int>, b: Option<int>) -> Option<int> {
    match (a, b) {
        (Some(a), Some(b)) => Some(fe(a - b)),
        _ => None,
    }
}

/// Whether two values are the same, where both are known.
pub open spec fn opt_equal(a: Option<int>, b: Option<int>) -> Option<bool> {
    match (a, b) {
        (Some(a), Some(b)) => Some(a == b),
        _ => None,
    }
}

/// The first value where the condition is true and the second where it is false,
/// as far as they are known.
pub open spec fn opt_choice(condition: Option<bool>, a: Option<int>, b: Option<int>) -> Option<
    int,
> {
    match condition {
        Some(c) => if c {
            a
        } else {
            b
        },
        None => None,
    }
}

/// The terms of `a - b`.
pub open spec fn difference_terms(a: Seq<Term>, b: Seq<Term>) -> Seq<Term> {
    scaled(a, 1) + negated(scaled(b, 1))
}

/// The value that shows two values to be the same or to differ: the `x` with
/// `(a - b) * x = r - 1`, where `r` tells whether they are the same.
pub open spec fn opt_equality_witness(a: Option<int>, b: Option<int>) -> Option<int> {
    match (a, b) {
        (Some(a), Some(b)) => Some(
            if a == b {
                1
            } else {
                fe(-inverse(fe(a - b)))
            },
        ),
        _ => None,
    }
}

/// The outcome of the comparison of two expressions.
pub open spec fn equals_outcome(cs: SystemView, a: LinearView, b: LinearView) -> (
    SystemView,
    Result<AllocatedBit, SynthesisError>,
) {
    let r_value = opt_equal(a.value, b.value);
    let r = cs.fresh(0);
    let x = cs.fresh(1);
    if cs.lacks(opt_bit_value(r_value)) {
        (cs, Err(SynthesisError::AssignmentMissing))
    } else {
        (
            cs.grown(
                seq![
                    cs.allocation(seq!["r"@, "boolean"@], opt_bit_value(r_value)),
                    cs.allocation(seq!["x"@, "num"@], opt_equality_witness(a.value, b.value)),
                ],
                seq![
                    boolean_constraint(cs, seq!["r"@, "boolean constraint"@], r),
                    cs.constraint(
                        seq!["0 = (a - b) * r"@],
                        difference_terms(a.terms, b.terms),
                        seq![(r, 1int)],
                        Seq::empty(),
                    ),
                    cs.constraint(
                        seq!["(a - b) * x == r - 1"@],
                        difference_terms(a.terms, b.terms),
                        seq![(x, 1int)],
                        seq![(r, 1int), (Variable::spec_one(), fe(-1))],
                    ),
                ],
            ),
            Ok(AllocatedBit { variable: r, value: r_value }),
        )
    }
}

/// The outcome of the selection between two expressions.
pub open spec fn select_outcome(
    cs: SystemView,
    a: LinearView,
    b: LinearView,
    condition: Boolean,
) -> (SystemView, Result<AllocatedNumView, SynthesisError>) {
    let value = opt_choice(condition.value(), a.value, b.value);
    let c = cs.fresh(0);
    if cs.lacks(value) {
        (cs, Err(SynthesisError::AssignmentMissing))
    } else {
        (
            cs.grown(
                seq![cs.allocation(seq!["conditional select result"@, "num"@], value)],
                seq![
                    cs.constraint(
                        seq!["conditional select constraint"@],
                        difference_terms(a.terms, b.terms),
                        boolean_terms(condition, Variable::spec_one(), 1),
                        seq![(c, 1int)] + negated(scaled(b.terms, 1)),
                    ),
                ],
            ),
            Ok(AllocatedNumView { variable: c, value: cs.kept(value) }),
        )
    }
}

/// The first allocation of a conditional reversal: `b` where the condition is
/// true, and `a` otherwise.
pub open spec fn first_reversed(
    cs: SystemView,
    a: LinearView,
    b: LinearView,
    condition: Boolean,
) -> SystemView {
    cs.grown(
        seq![
            cs.allocation(
                seq!["conditional reversal result 1"@, "num"@],
                opt_choice(condition.value(), b.value, a.value),
            ),
        ],
        seq![
            cs.constraint(
                seq!["first conditional reversal"@],
                difference_terms(a.terms, b.terms),
                boolean_terms(condition, Variable::spec_one(), 1),
                scaled(a.terms, 1).push((cs.fresh(0), fe(-1))),
            ),
        ],
    )
}

/// The second allocation of a conditional reversal: `a` where the condition is
/// true, and `b` otherwise.
pub open spec fn second_reversed(
    cs: SystemView,
    a: LinearView,
    b: LinearView,
    condition: Boolean,
) -> SystemView {
    cs.grown(
        seq![
            cs.allocation(
                seq!["conditional reversal result 2"@, "num"@],
                opt_choice(condition.value(), a.value, b.value),
            ),
        ],
        seq![
            cs.constraint(
                seq!["second conditional reversal"@],
                difference_terms(b.terms, a.terms),
                boolean_terms(condition, Variable::spec_one(), 1),
                scaled(b.terms, 1).push((cs.fresh(0), fe(-1))),
            ),
        ],
    )
}

/// The outcome of the conditional reversal of two expressions.
pub open spec fn reverse_outcome(
    cs: SystemView,
    a: LinearView,
    b: LinearView,
    condition: Boolean,
) -> (SystemView, Result<(AllocatedNumView, AllocatedNumView), SynthesisError>) {
    let c_value = opt_choice(condition.value(), b.value, a.value);
    let d_value = opt_choice(condition.value(), a.value, b.value);
    let first = first_reversed(cs, a, b, condition);
    if cs.lacks(c_value) {
        (cs, Err(SynthesisError::AssignmentMissing))
    } else if cs.lacks(d_value) {
        (first, Err(SynthesisError::AssignmentMissing))
    } else {
        (
            second_reversed(first, a, b, condition),
            Ok(
                (
                    AllocatedNumView { variable: cs.fresh(0), value: cs.kept(c_value) },
                    AllocatedNumView { variable: cs.fresh(1), value: cs.kept(d_value) },
                ),
            ),
        )
    }
}

/// The view of an outcome.
pub open spec fn num_pair_view(
    r: Result<(AllocatedNum, AllocatedNum), SynthesisError>,
) -> Result<(AllocatedNumView, AllocatedNumView), SynthesisError> {
    match r {
        Ok((c, d)) => Ok((c@, d@)),
        Err(e) => Err(e),
    }
}

/// The outcome of the selection between `x` and `y` by the comparison of `a` and
/// `b`.
pub open spec fn select_ifeq_outcome(
    cs: SystemView,
    a: LinearView,
    b: LinearView,
    x: LinearView,
    y: LinearView,
) -> (SystemView, Result<AllocatedNumView, SynthesisError>) {
    let (compared, eq) = equals_outcome(cs.within("eq"@), a, b);
    match eq {
        Ok(bit) => {
            let (selected, r) = select_outcome(
                compared.without().within("select"@),
                x,
                y,
                Boolean::Is(bit),
            );
            (selected.without(), r)
        },
        Err(e) => (compared.without(), Err(e)),
    }
}

/// The weight of the bit of index `i`.
pub open spec fn weight(i: int) -> int {
    fe(pow2(i as nat) as int)
}

/// The values of the bits, where all are known.
pub open spec fn known_bits(bits: Seq<Boolean>) -> Option<Seq<bool>> {
    if forall|i: int| 0 <= i < bits.len() ==> (#[trigger] bits[i]).value() is Some {
        Some(Seq::new(bits.len(), |i: int| bits[i].value()->0))
    } else {
        None
    }
}

/// The value of the number of which these are the bits, where all are known.
pub open spec fn packed_value(bits: Seq<Boolean>) -> Option<int> {
    match known_bits(bits) {
        Some(b) => Some(fe(le_sum(b))),
        None => None,
    }
}

/// The terms of the bits, each with its weight.
pub open spec fn packed_terms(bits: Seq<Boolean>) -> Seq<Term>
    decreases bits.len(),
{
    if bits.len() == 0 {
        Seq::empty()
    } else {
        packed_terms(bits.drop_last()) + boolean_terms(
            bits.last(),
            Variable::spec_one(),
            weight(bits.len() - 1),
        )
    }
}

/// The terms of allocated bits, each with its weight.
pub open spec fn weighted_terms(bits: Seq<AllocatedBit>) -> Seq<Term> {
    Seq::new(bits.len(), |i: int| (bits[i].variable, weight(i)))
}

/// The constraint that a linear combination is the number of which these are the
/// bits.
pub open spec fn unpacking_constraint(
    cs: SystemView,
    bits: Seq<AllocatedBit>,
    terms: Seq<Term>,
) -> ConstraintView {
    cs.constraint(
        seq!["unpacking constraint"@],
        Seq::empty(),
        Seq::empty(),
        weighted_terms(bits) + negated(scaled(terms, 1)),
    )
}

/// Allocated bits as bits of a circuit.
pub open spec fn as_booleans(bits: Seq<AllocatedBit>) -> Seq<Boolean> {
    Seq::new(bits.len(), |i: int| Boolean::Is(bits[i]))
}

/// The outcome of the decomposition of an expression into its `n` least
/// significant bits.
pub open spec fn bits_outcome(cs: SystemView, e: LinearView, n: nat) -> (
    SystemView,
    Result<Seq<Boolean>, SynthesisError>,
) {
    let (allocated, r) = bits_allocated(cs, e.value, n);
    match r {
        Ok(bits) => (
            allocated.grown(Seq::empty(), seq![unpacking_constraint(allocated, bits, e.terms)]),
            Ok(as_booleans(bits)),
        ),
        Err(e) => (allocated, Err(e)),
    }
}

/// The outcome of the limitation of an expression to `n` bits.
pub open spec fn limit_outcome(cs: SystemView, e: LinearView, n: nat) -> (
    SystemView,
    Result<(), SynthesisError>,
) {
    let (unpacked, r) = bits_outcome(
        cs.within("unpack to limit number of bits"@),
        e,
        NUM_BITS as nat,
    );
    match r {
        Ok(bits) => (
            unpacked.without().grown(
                Seq::empty(),
                seq![
                    cs.constraint(
                        seq!["repack top bits"@],
                        Seq::empty(),
                        seq![(Variable::spec_one(), 1int)],
                        scaled(packed_terms(bits.skip(n as int)), 1),
                    ),
                ],
            ),
            Ok(()),
        ),
        Err(e) => (unpacked.without(), Err(e)),
    }
}

impl Expression {
    /// An expression from its parts.
    pub fn new(value: Option<Fr>, lc: LinearCombination) -> (r: Expression)
        ensures
            r@ == (LinearView { value: opt_value(value), terms: lc@ }),
    {
        Expression { value, lc }
    }

    /// The expression of a constant.
    pub fn constant(value: Fr) -> (r: Expression)
        ensures
            r@ == of_constant(value@),
    {
        let lc = LinearCombination::zero().add_term(value, Variable::one());
        assert(lc@ =~= seq![(Variable::spec_one(), value@)]);
        Expression { value: Some(value), lc }
    }

    /// The expression of a constant number.
    pub fn u64(number: u64) -> (r: Expression)
        ensures
            r@ == of_constant(number as int),
    {
        let digits = u64_to_string(number);
        proof {
            lemma_decimal_round_trip(number as nat);
        }
        let value = Fr::from_str(digits.as_str()).unwrap();
        Expression::constant(value)
    }

    /// The expression of a bit.
    pub fn boolean(boolean_var: Boolean) -> (r: Expression)
        ensures
            r@ == (LinearView {
                value: opt_bit_value(boolean_var.value()),
                terms: boolean_terms(boolean_var, Variable::spec_one(), 1),
            }),
    {
        Expression {
            value: boolean_var.get_value_field(),
            lc: boolean_var.lc(Variable::one(), Fr::one()),
        }
    }

    /// The expression of the number of which these are the bits, from the least
    /// significant one on.
    pub fn le_bits(le_bits: &[Boolean]) -> (r: Expression)
        ensures
            r@ == (LinearView {
                value: packed_value(le_bits@),
                terms: scaled(packed_terms(le_bits@), 1),
            }),
    {
        Expression::from(&pack(le_bits))
    }

    /// The value of the expression, where it is known.
    pub fn get_value(&self) -> (r: Option<Fr>)
        ensures
            opt_value(r) == self@.value,
    {
        self.value
    }

    /// The linear combination of the expression.
    pub fn lc(&self) -> (r: LinearCombination)
        ensures
            r@ == scaled(self@.terms, 1),
    {
        LinearCombination::zero().add_scaled(Fr::one(), &self.lc)
    }

    /// Allocates a bit that tells whether the two expressions have the same
    /// value.
    pub fn equals<EX1, EX2>(cs: &mut ConstraintSystem, a: EX1, b: EX2) -> (r: Result<
        AllocatedBit,
        SynthesisError,
    >) where EX1: Into<Expression>, EX2: Into<Expression>
        ensures
            exists|ea: Expression, eb: Expression|
                #[trigger] converts(a, ea) && #[trigger] converts(b, eb) && (final(cs)@, r)
                    == equals_outcome(old(cs)@, ea@, eb@),
    {
        let ea: Expression = a.into();
        let eb: Expression = b.into();
        assert(converts(a, ea) && converts(b, eb));

        // The bit `r` is true where `a` equals `b`, and false otherwise.
        let r_value = match (ea.get_value(), eb.get_value()) {
            (Some(a), Some(b)) => Some(a == b),
            _ => None,
        };
        let ghost c0 = cs@;
        cs.push_namespace("r".to_owned());
        let allocated = AllocatedBit::allocate(cs, r_value);
        cs.pop_namespace();
        proof {
            lemma_bit_in_namespace(c0, "r"@, r_value);
        }
        let r = match allocated {
            Ok(r) => r,
            Err(e) => {
                return Err(e);
            },
        };
        let ghost c1 = cs@;

        // The difference of the two.
        let delta_value = match (ea.get_value(), eb.get_value()) {
            (Some(a), Some(b)) => {
                let mut delta = a;
                delta.sub_assign(&b);
                proof {
                    use_type_invariant(&a);
                    use_type_invariant(&b);
                    lemma_difference_zero(a@, b@);
                }
                Some(delta)
            },
            _ => None,
        };
        let x_value = match (delta_value, r_value) {
            (Some(delta), Some(r)) => {
                if delta.is_zero() {
                    Some(Fr::one())
                } else {
                    let mut mult = if r {
                        Fr::one()
                    } else {
                        Fr::zero()
                    };
                    mult.sub_assign(&Fr::one());
                    let mut x = delta.inverse().unwrap();
                    proof {
                        lemma_negated_product(x@);
                    }
                    x.mul_assign(&mult);
                    Some(x)
                }
            },
            _ => None,
        };
        cs.push_namespace("x".to_owned());
        let allocated = AllocatedNum::allocate(cs, x_value);
        cs.pop_namespace();
        proof {
            lemma_num_in_namespace(c1, "x"@, opt_value(x_value));
        }
        let x = match allocated {
            Ok(x) => x,
            Err(e) => {
                return Err(e);
            },
        };

        // 0 = (a - b) * r, thus r is 0 where a - b is not 0.
        let difference = LinearCombination::zero().add_all(&ea.lc()).sub_all(&eb.lc());
        assert(difference@ =~= difference_terms(ea@.terms, eb@.terms));
        let bit = LinearCombination::zero().add_variable(r.get_variable());
        assert(bit@ =~= seq![(r.variable, 1int)]);
        cs.enforce("0 = (a - b) * r", difference, bit, LinearCombination::zero());

        // (a - b) * x == r - 1, thus r is 1 where a - b is 0.
        let difference = LinearCombination::zero().add_all(&ea.lc()).sub_all(&eb.lc());
        assert(difference@ =~= difference_terms(ea@.terms, eb@.terms));
        let witness = LinearCombination::zero().add_variable(x.get_variable());
        assert(witness@ =~= seq![(x@.variable, 1int)]);
        let less_one = LinearCombination::zero().add_variable(r.get_variable()).sub_variable(
            Variable::one(),
        );
        assert(less_one@ =~= seq![(r.variable, 1int), (Variable::spec_one(), fe(-1))]);
        cs.enforce("(a - b) * x == r - 1", difference, witness, less_one);
        proof {
            let outcome = equals_outcome(c0, ea@, eb@);
            assert(cs@.aux =~= outcome.0.aux);
            assert(cs@.constraints =~= outcome.0.constraints);
        }
        Ok(r)
    }

    /// Allocates the two expressions in reverse order where the condition is
    /// true, and in their order otherwise.
    pub fn conditionally_reverse<EX1, EX2>(
        cs: &mut ConstraintSystem,
        a: EX1,
        b: EX2,
        condition: &Boolean,
    ) -> (r: Result<(AllocatedNum, AllocatedNum), SynthesisError>) where
        EX1: Into<Expression>,
        EX2: Into<Expression>,

        ensures
            exists|ea: Expression, eb: Expression|
                #[trigger] converts(a, ea) && #[trigger] converts(b, eb) && (
                    final(cs)@,
                    num_pair_view(r),
                ) == reverse_outcome(old(cs)@, ea@, eb@, *condition),
    {
        let ea: Expression = a.into();
        let eb: Expression = b.into();
        assert(converts(a, ea) && converts(b, eb));

        let c_value = choose_value(condition, &eb, &ea);
        let ghost c0 = cs@;
        cs.push_namespace("conditional reversal result 1".to_owned());
        let allocated = AllocatedNum::allocate(cs, c_value);
        cs.pop_namespace();
        proof {
            lemma_num_in_namespace(c0, "conditional reversal result 1"@, opt_value(c_value));
        }
        let c = match allocated {
            Ok(c) => c,
            Err(e) => {
                return Err(e);
            },
        };

        // (a - b) * condition = a - c
        let difference = LinearCombination::zero().add_all(&ea.lc()).sub_all(&eb.lc());
        assert(difference@ =~= difference_terms(ea@.terms, eb@.terms));
        let rest = LinearCombination::zero().add_all(&ea.lc()).sub_variable(c.get_variable());
        assert(rest@ =~= scaled(ea@.terms, 1).push((c@.variable, fe(-1))));
        cs.enforce(
            "first conditional reversal",
            difference,
            condition.lc(Variable::one(), Fr::one()),
            rest,
        );
        let ghost c1 = cs@;
        proof {
            let first = first_reversed(c0, ea@, eb@, *condition);
            assert(c1.aux =~= first.aux);
            assert(c1.constraints =~= first.constraints);
        }

        let d_value = choose_value(condition, &ea, &eb);
        cs.push_namespace("conditional reversal result 2".to_owned());
        let allocated = AllocatedNum::allocate(cs, d_value);
        cs.pop_namespace();
        proof {
            lemma_num_in_namespace(c1, "conditional reversal result 2"@, opt_value(d_value));
        }
        let d = match allocated {
            Ok(d) => d,
            Err(e) => {
                return Err(e);
            },
        };

        // (b - a) * condition = b - d
        let difference = LinearCombination::zero().add_all(&eb.lc()).sub_all(&ea.lc());
        assert(difference@ =~= difference_terms(eb@.terms, ea@.terms));
        let rest = LinearCombination::zero().add_all(&eb.lc()).sub_variable(d.get_variable());
        assert(rest@ =~= scaled(eb@.terms, 1).push((d@.variable, fe(-1))));
        cs.enforce(
            "second conditional reversal",
            difference,
            condition.lc(Variable::one(), Fr::one()),
            rest,
        );
        proof {
            let second = second_reversed(c1, ea@, eb@, *condition);
            assert(cs@.aux =~= second.aux);
            assert(cs@.constraints =~= second.constraints);
        }
        Ok((c, d))
    }

    /// Takes two expressions and allocates the first where the condition is true,
    /// and the second otherwise. Most often used with the second one zero.
    pub fn conditionally_select<EX1, EX2>(
        cs: &mut ConstraintSystem,
        a: EX1,
        b: EX2,
        condition: &Boolean,
    ) -> (r: Result<AllocatedNum, SynthesisError>) where
        EX1: Into<Expression>,
        EX2: Into<Expression>,

        ensures
            exists|ea: Expression, eb: Expression|
                #[trigger] converts(a, ea) && #[trigger] converts(b, eb) && (final(cs)@, num_view(r))
                    == select_outcome(old(cs)@, ea@, eb@, *condition),
    {
        let ea: Expression = a.into();
        let eb: Expression = b.into();
        assert(converts(a, ea) && converts(b, eb));

        let value = choose_value(condition, &ea, &eb);
        let ghost c0 = cs@;
        cs.push_namespace("conditional select result".to_owned());
        let allocated = AllocatedNum::allocate(cs, value);
        cs.pop_namespace();
        proof {
            lemma_num_in_namespace(c0, "conditional select result"@, opt_value(value));
        }
        let c = match allocated {
            Ok(c) => c,
            Err(e) => {
                return Err(e);
            },
        };

        // a * condition + b * (1 - condition) = c, that is
        // a * condition - b * condition = c - b
        let difference = LinearCombination::zero().add_all(&ea.lc()).sub_all(&eb.lc());
        assert(difference@ =~= difference_terms(ea@.terms, eb@.terms));
        let rest = LinearCombination::zero().add_variable(c.get_variable()).sub_all(&eb.lc());
        assert(rest@ =~= seq![(c@.variable, 1int)] + negated(scaled(eb@.terms, 1)));
        cs.enforce(
            "conditional select constraint",
            difference,
            condition.lc(Variable::one(), Fr::one()),
            rest,
        );
        proof {
            let outcome = select_outcome(c0, ea@, eb@, *condition);
            assert(cs@.aux =~= outcome.0.aux);
            assert(cs@.constraints =~= outcome.0.constraints);
        }
        Ok(c)
    }

    /// Allocates `a == b ? x : y`.
    pub fn select_ifeq<EX1, EX2, EX3, EX4>(
        cs: &mut ConstraintSystem,
        a: EX1,
        b: EX2,
        x: EX3,
        y: EX4,
    ) -> (r: Result<AllocatedNum, SynthesisError>) where
        EX1: Into<Expression>,
        EX2: Into<Expression>,
        EX3: Into<Expression>,
        EX4: Into<Expression>,

        ensures
            exists|ea: Expression, eb: Expression|
                #[trigger] converts(a, ea) && #[trigger] converts(b, eb) && match equals_outcome(
                    old(cs)@.within("eq"@),
                    ea@,
                    eb@,
                ) {
                    (compared, Err(e)) => (final(cs)@, num_view(r)) == (
                        compared.without(),
                        Err::<AllocatedNumView, SynthesisError>(e),
                    ),
                    (compared, Ok(bit)) => exists|ex: Expression, ey: Expression|
                        #[trigger] converts(x, ex) && #[trigger] converts(y, ey) && (
                            final(cs)@,
                            num_view(r),
                        ) == select_ifeq_outcome(old(cs)@, ea@, eb@, ex@, ey@),
                },
    {
        cs.push_namespace("eq".to_owned());
        let compared = Expression::equals(cs, a, b);
        cs.pop_namespace();
        let eq = match compared {
            Ok(eq) => eq,
            Err(e) => {
                return Err(e);
            },
        };
        cs.push_namespace("select".to_owned());
        let selected = Expression::conditionally_select(cs, x, y, &Boolean::from(eq));
        cs.pop_namespace();
        selected
    }

    /// Puts the constraint that the expression is the number of which these are
    /// the bits.
    pub(crate) fn enforce_unpacking(&self, cs: &mut ConstraintSystem, bits: &Vec<AllocatedBit>)
        ensures
            final(cs)@ == old(cs)@.grown(
                Seq::empty(),
                seq![unpacking_constraint(old(cs)@, bits@, self@.terms)],
            ),
    {
        let mut difference = LinearCombination::zero();
        let mut coeff = Fr::one();
        proof {
            lemma_weight_zero();
        }
        for i in 0..bits.len()
            invariant
                difference@ == weighted_terms(bits@.take(i as int)),
                coeff@ == weight(i as int),
        {
            let ghost before = coeff@;
            difference = difference.add_term(coeff, bits[i].get_variable());
            assert(difference@ =~= weighted_terms(bits@.take(i + 1)));
            coeff.double();
            proof {
                lemma_weight_next(i as int);
            }
        }
        assert(bits@.take(bits@.len() as int) =~= bits@);
        let difference = difference.sub_all(&self.lc());
        cs.enforce(
            "unpacking constraint",
            LinearCombination::zero(),
            LinearCombination::zero(),
            difference,
        );
    }

    /// Decomposes the expression into its bits, from the least significant one
    /// on. The constraints do not fix which of the congruent numbers the bits
    /// are those of.
    pub fn into_bits_le(&self, cs: &mut ConstraintSystem) -> (r: Result<
        Vec<Boolean>,
        SynthesisError,
    >)
        ensures
            (final(cs)@, listed(r)) == bits_outcome(old(cs)@, self@, NUM_BITS as nat),
    {
        let bits = match field_into_allocated_bits_le(cs, self.value) {
            Ok(bits) => bits,
            Err(e) => {
                return Err(e);
            },
        };
        self.enforce_unpacking(cs, &bits);
        Ok(booleans(&bits))
    }

    /// Decomposes the expression into a fixed number of bits, from the least
    /// significant one on. For expressions that are known to be numbers of so
    /// many bits.
    pub fn into_bits_le_fixed(&self, cs: &mut ConstraintSystem, bit_length: usize) -> (r: Result<
        Vec<Boolean>,
        SynthesisError,
    >)
        ensures
            (final(cs)@, listed(r)) == bits_outcome(
                old(cs)@,
                self@,
                if bit_length < NUM_BITS {
                    bit_length as nat
                } else {
                    NUM_BITS as nat
                },
            ),
    {
        let bits = match field_into_allocated_bits_le_fixed(cs, self.value, bit_length) {
            Ok(bits) => bits,
            Err(e) => {
                return Err(e);
            },
        };
        self.enforce_unpacking(cs, &bits);
        Ok(booleans(&bits))
    }

    /// Limits the number of bits of the expression, as it takes to add or
    /// subtract two numbers of few bits and to check for overflow.
    pub fn limit_number_of_bits(&self, cs: &mut ConstraintSystem, number_of_bits: usize) -> (r:
        Result<(), SynthesisError>)
        requires
            number_of_bits <= NUM_BITS || old(cs)@.lacks(self@.value),
        ensures
            (final(cs)@, r) == limit_outcome(old(cs)@, self@, number_of_bits as nat),
    {
        // Decompose, and check that the higher bits are all zero.
        cs.push_namespace("unpack to limit number of bits".to_owned());
        let unpacked = self.into_bits_le(cs);
        cs.pop_namespace();
        let bits = match unpacked {
            Ok(bits) => bits,
            Err(e) => {
                return Err(e);
            },
        };
        let mut top_bits: Vec<Boolean> = Vec::new();
        for i in number_of_bits..bits.len()
            invariant
                number_of_bits <= i <= bits@.len(),
                top_bits@ == bits@.subrange(number_of_bits as int, i as int),
        {
            top_bits.push(bits[i]);
            assert(top_bits@ =~= bits@.subrange(number_of_bits as int, i + 1));
        }
        assert(top_bits@ =~= bits@.skip(number_of_bits as int));

        // Pack them again, and require that they come to zero.
        let top = pack(top_bits.as_slice());
        let one = LinearCombination::zero().add_variable(Variable::one());
        assert(one@ =~= seq![(Variable::spec_one(), 1int)]);
        cs.enforce("repack top bits", LinearCombination::zero(), one, top.lc(Fr::one()));
        assert(cs@.path =~= old(cs)@.path);
        Ok(())
    }
}

/// The weight of the first bit.
pub proof fn lemma_weight_zero()
    ensures
        weight(0) == 1,
{
    vstd::arithmetic::power2::lemma2_to64();
}

/// The weight of each bit is twice that of the one before.
pub proof fn lemma_weight_next(i: int)
    requires
        0 <= i,
    ensures
        weight(i + 1) == fe(2 * weight(i)),
{
    vstd::arithmetic::power2::lemma_pow2_unfold((i + 1) as nat);
    vstd::arithmetic::div_mod::lemma_mul_mod_noop_right(2, pow2(i as nat) as int, modulus());
}

/// Allocated bits as bits of a circuit.
pub(crate) fn booleans(bits: &Vec<AllocatedBit>) -> (r: Vec<Boolean>)
    ensures
        r@ == as_booleans(bits@),
{
    let mut r: Vec<Boolean> = Vec::new();
    for i in 0..bits.len()
        invariant
            r@ == as_booleans(bits@.take(i as int)),
    {
        r.push(Boolean::from(bits[i]));
        assert(r@ =~= as_booleans(bits@.take(i + 1)));
    }
    assert(bits@.take(bits@.len() as int) =~= bits@);
    r
}

/// The sum of the bits, each with its weight.
fn pack(bits: &[Boolean]) -> (r: Num)
    ensures
        r@ == (LinearView { value: packed_value(bits@), terms: packed_terms(bits@) }),
{
    let mut num = Num::zero();
    let mut coeff = Fr::one();
    proof {
        lemma_weight_zero();
        assert(bits@.take(0) =~= Seq::<Boolean>::empty());
        assert(known_bits(bits@.take(0)) == Some(Seq::<bool>::empty()));
    }
    for i in 0..bits.len()
        invariant
            num@ == (LinearView {
                value: packed_value(bits@.take(i as int)),
                terms: packed_terms(bits@.take(i as int)),
            }),
            coeff@ == weight(i as int),
    {
        num = num.add_bool_with_coeff(Variable::one(), &bits[i], coeff);
        coeff.double();
        proof {
            lemma_weight_next(i as int);
            lemma_packed_next(bits@, i as int);
        }
    }
    assert(bits@.take(bits@.len() as int) =~= bits@);
    num
}

/// How the packed value grows by a bit.
pub proof fn lemma_packed_next(bits: Seq<Boolean>, i: int)
    requires
        0 <= i < bits.len(),
    ensures
        packed_terms(bits.take(i + 1)) == packed_terms(bits.take(i)) + boolean_terms(
            bits[i],
            Variable::spec_one(),
            weight(i),
        ),
        packed_value(bits.take(i + 1)) == match (packed_value(bits.take(i)), bits[i].value()) {
            (Some(v), Some(b)) => Some(
                if b {
                    fe(v + weight(i))
                } else {
                    v
                },
            ),
            _ => None,
        },
{
    let before = bits.take(i);
    let after = bits.take(i + 1);
    assert(after.drop_last() =~= before);
    if known_bits(after) is Some {
        let b = known_bits(after)->0;
        assert forall|j: int| 0 <= j < before.len() implies (#[trigger] before[j]).value() is Some by {
            assert(after[j].value() is Some);
        }
        assert(after[i].value() is Some);
        assert(b.drop_last() =~= known_bits(before)->0);
        vstd::arithmetic::div_mod::lemma_add_mod_noop(
            le_sum(b.drop_last()),
            pow2(i as nat) as int,
            modulus(),
        );
        assert(bit_value(true) * pow2(i as nat) == pow2(i as nat));
        assert(bit_value(false) * pow2(i as nat) == 0);
    } else if known_bits(before) is Some && bits[i].value() is Some {
        assert forall|j: int| 0 <= j < after.len() implies (#[trigger] after[j]).value() is Some by {
            if j < i {
                assert(before[j].value() is Some);
            }
        }
    }
}

/// The value of the first expression where the condition is true, and that of
/// the second where it is false.
fn choose_value(condition: &Boolean, a: &Expression, b: &Expression) -> (r: Option<Fr>)
    ensures
        opt_value(r) == opt_choice(condition.value(), a@.value, b@.value),
{
    match condition.get_value() {
        Some(c) => if c {
            a.get_value()
        } else {
            b.get_value()
        },
        None => None,
    }
}

impl<'a> From<&'a AllocatedNum> for Expression {
    fn from(num: &'a AllocatedNum) -> (r: Expression)
        ensures
            r@ == of_variable(num@.variable, num@.value),
    {
        let lc = LinearCombination::zero().add_variable(num.get_variable());
        assert(lc@ =~= seq![(num@.variable, 1int)]);
        Expression { value: num.get_value(), lc }
    }
}

impl<'a> vstd::std_specs::convert::FromSpecImpl<&'a AllocatedNum> for Expression {
    open spec fn obeys_from_spec() -> bool {
        false
    }

    open spec fn from_spec(num: &'a AllocatedNum) -> Expression {
        arbitrary()
    }
}

impl<'a> From<&'a Num> for Expression {
    fn from(num: &'a Num) -> (r: Expression)
        ensures
            r@ == (LinearView { value: num@.value, terms: scaled(num@.terms, 1) }),
    {
        Expression { value: num.get_value(), lc: num.lc(Fr::one()) }
    }
}

impl<'a> vstd::std_specs::convert::FromSpecImpl<&'a Num> for Expression {
    open spec fn obeys_from_spec() -> bool {
        false
    }

    open spec fn from_spec(num: &'a Num) -> Expression {
        arbitrary()
    }
}

impl<'a> From<&'a AllocatedBit> for Expression {
    fn from(bit: &'a AllocatedBit) -> (r: Expression)
        ensures
            r@ == of_variable(bit.variable, opt_bit_value(bit.value)),
    {
        let lc = LinearCombination::zero().add_variable(bit.get_variable());
        assert(lc@ =~= seq![(bit.variable, 1int)]);
        Expression { value: bit.get_value_field(), lc }
    }
}

impl<'a> vstd::std_specs::convert::FromSpecImpl<&'a AllocatedBit> for Expression {
    open spec fn obeys_from_spec() -> bool {
        false
    }

    open spec fn from_spec(bit: &'a AllocatedBit) -> Expression {
        arbitrary()
    }
}

/// The sum of two expressions.
pub open spec fn sum_of(a: LinearView, b: LinearView) -> LinearView {
    LinearView { value: opt_sum(a.value, b.value), terms: a.terms + b.terms }
}

/// The difference of two expressions.
pub open spec fn difference_of(a: LinearView, b: LinearView) -> LinearView {
    LinearView { value: opt_difference(a.value, b.value), terms: a.terms + negated(b.terms) }
}

impl<EX: Into<Expression>> Add<EX> for Expression {
    type Output = Expression;

    fn add(self, other: EX) -> (r: Expression)
        ensures
            exists|e: Expression| #[trigger] converts(other, e) && r@ == sum_of(self@, e@),
    {
        let e: Expression = other.into();
        assert(converts(other, e));
        let value = match (self.value, e.value) {
            (Some(a), Some(b)) => {
                let mut sum = a;
                sum.add_assign(&b);
                Some(sum)
            },
            _ => None,
        };
        Expression { value, lc: self.lc.add_all(&e.lc) }
    }
}

impl<EX: Into<Expression>> vstd::std_specs::ops::AddSpecImpl<EX> for Expression {
    open spec fn obeys_add_spec() -> bool {
        false
    }

    open spec fn add_req(self, other: EX) -> bool {
        true
    }

    open spec fn add_spec(self, other: EX) -> Expression {
        arbitrary()
    }
}

impl<EX: Into<Expression>> Sub<EX> for Expression {
    type Output = Expression;

    fn sub(self, other: EX) -> (r: Expression)
        ensures
            exists|e: Expression| #[trigger] converts(other, e) && r@ == difference_of(self@, e@),
    {
        let e: Expression = other.into();
        assert(converts(other, e));
        let value = match (self.value, e.value) {
            (Some(a), Some(b)) => {
                let mut difference = a;
                difference.sub_assign(&b);
                Some(difference)
            },
            _ => None,
        };
        Expression { value, lc: self.lc.sub_all(&e.lc) }
    }
}

impl<EX: Into<Expression>> vstd::std_specs::ops::SubSpecImpl<EX> for Expression {
    open spec fn obeys_sub_spec() -> bool {
        false
    }

    open spec fn sub_req(self, other: EX) -> bool {
        true
    }

    open spec fn sub_spec(self, other: EX) -> Expression {
        arbitrary()
    }
}

/// The allocation of a number in a namespace of its own.
proof fn lemma_num_in_namespace(cs: SystemView, name: Seq<char>, value: Option<int>)
    ensures
        cs.lacks(value) ==> crate::num::num_allocated(cs.within(name), value).0.without() == cs,
        !cs.lacks(value) ==> crate::num::num_allocated(cs.within(name), value).0.without()
            == cs.grown(seq![cs.allocation(seq![name, "num"@], value)], Seq::empty()),
{
    lemma_nested(cs, name, seq!["num"@]);
    assert(seq![name] + seq!["num"@] =~= seq![name, "num"@]);
    lemma_unnested(
        cs,
        name,
        seq![cs.allocation(seq![name, "num"@], value)],
        Seq::empty(),
    );
}

} // verus!
