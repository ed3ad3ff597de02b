//! Variables that hold a bit, and what can be made of them.

use vstd::prelude::*;

use crate::bits::{bit, bit_value, bits_be, lemma_top_bits_of_modulus};
use crate::constraint_system::{
    lemma_nested, lemma_unnested, AllocationView, ConstraintSystem, ConstraintView, Path,
    SynthesisError, SystemView,
};
use crate::decimal::{decimal, numbered};
use crate::fr::{fe, modulus, opt_value, repr_bits, Fr, NUM_BITS};
use crate::linear_combination::{LinearCombination, Term, Variable};

verus! {

/// The field element that stands for a bit, where the bit is known.
pub open spec fn opt_bit_value(b: Option<bool>) -> Option<int> {
    match b {
        Some(b) => Some(bit_value(b)),
        None => None,
    }
}

/// The conjunction of two bits, where both are known.
pub open spec fn opt_and(a: Option<bool>, b: Option<bool>) -> Option<bool> {
    match (a, b) {
        (Some(a), Some(b)) => Some(a && b),
        _ => None,
    }
}

/// A variable that the constraints allow to hold zero or one only.
#[derive(Clone, Copy, Debug, PartialEq, Eq, Structural)]
pub struct AllocatedBit {
    pub variable: Variable,
    pub value: Option<bool>,
}

/// The constraint that a variable holds zero or one: `(1 - var) * var = 0`.
pub open spec fn boolean_constraint(cs: SystemView, names: Path, var: Variable) -> ConstraintView {
    cs.constraint(
        names,
        seq![(Variable::spec_one(), 1int), (var, fe(-1))],
        seq![(var, 1int)],
        Seq::empty(),
    )
}

/// The constraint that a variable holds zero or one, and zero where another one
/// holds one: `(1 - must_be_false - var) * var = 0`.
pub open spec fn conditional_constraint(
    cs: SystemView,
    names: Path,
    must_be_false: Variable,
    var: Variable,
) -> ConstraintView {
    cs.constraint(
        names,
        seq![(Variable::spec_one(), 1int), (must_be_false, fe(-1)), (var, fe(-1))],
        seq![(var, 1int)],
        Seq::empty(),
    )
}

/// The outcome of the allocation of a bit.
pub open spec fn bit_allocated(cs: SystemView, value: Option<bool>) -> (
    SystemView,
    Result<AllocatedBit, SynthesisError>,
) {
    if cs.lacks(opt_bit_value(value)) {
        (cs, Err(SynthesisError::AssignmentMissing))
    } else {
        (
            cs.grown(
                seq![cs.allocation(seq!["boolean"@], opt_bit_value(value))],
                seq![boolean_constraint(cs, seq!["boolean constraint"@], cs.fresh(0))],
            ),
            Ok(AllocatedBit { variable: cs.fresh(0), value }),
        )
    }
}

/// The outcome of the allocation of a bit that has to be false where another one
/// is true.
pub open spec fn bit_allocated_conditionally(
    cs: SystemView,
    value: Option<bool>,
    must_be_false: Variable,
) -> (SystemView, Result<AllocatedBit, SynthesisError>) {
    if cs.lacks(opt_bit_value(value)) {
        (cs, Err(SynthesisError::AssignmentMissing))
    } else {
        (
            cs.grown(
                seq![cs.allocation(seq!["boolean"@], opt_bit_value(value))],
                seq![
                    conditional_constraint(
                        cs,
                        seq!["boolean constraint"@],
                        must_be_false,
                        cs.fresh(0),
                    ),
                ],
            ),
            Ok(AllocatedBit { variable: cs.fresh(0), value }),
        )
    }
}

/// The outcome of the conjunction of two bits.
pub open spec fn and_allocated(cs: SystemView, a: AllocatedBit, b: AllocatedBit) -> (
    SystemView,
    Result<AllocatedBit, SynthesisError>,
) {
    let value = opt_and(a.value, b.value);
    if cs.lacks(opt_bit_value(value)) {
        (cs, Err(SynthesisError::AssignmentMissing))
    } else {
        (
            cs.grown(
                seq![cs.allocation(seq!["and result"@], opt_bit_value(value))],
                seq![
                    cs.constraint(
                        seq!["and constraint"@],
                        seq![(a.variable, 1int)],
                        seq![(b.variable, 1int)],
                        seq![(cs.fresh(0), 1int)],
                    ),
                ],
            ),
            Ok(
                AllocatedBit {
                    variable: cs.fresh(0),
                    value: if cs.evaluates {
                        value
                    } else {
                        None
                    },
                },
            ),
        )
    }
}

/// The allocation of a bit in a namespace of its own.
pub proof fn lemma_bit_in_namespace(cs: SystemView, name: Seq<char>, value: Option<bool>)
    ensures
        cs.lacks(opt_bit_value(value)) ==> bit_allocated(cs.within(name), value).0.without() == cs,
        !cs.lacks(opt_bit_value(value)) ==> bit_allocated(cs.within(name), value).0.without()
            == cs.grown(
            seq![cs.allocation(seq![name, "boolean"@], opt_bit_value(value))],
            seq![boolean_constraint(cs, seq![name, "boolean constraint"@], cs.fresh(0))],
        ),
{
    lemma_nested(cs, name, seq!["boolean"@]);
    lemma_nested(cs, name, seq!["boolean constraint"@]);
    assert(seq![name] + seq!["boolean"@] =~= seq![name, "boolean"@]);
    assert(seq![name] + seq!["boolean constraint"@] =~= seq![name, "boolean constraint"@]);
    lemma_unnested(
        cs,
        name,
        seq![cs.allocation(seq![name, "boolean"@], opt_bit_value(value))],
        seq![boolean_constraint(cs, seq![name, "boolean constraint"@], cs.fresh(0))],
    );
}

/// The field element that stands for a bit.
pub fn bit_to_field(value: Option<bool>) -> (r: Option<Fr>)
    ensures
        opt_value(r) == opt_bit_value(value),
{
    match value {
        Some(b) => if b {
            Some(Fr::one())
        } else {
            Some(Fr::zero())
        },
        None => None,
    }
}

impl AllocatedBit {
    /// The value of the bit, where it is known.
    pub fn get_value(&self) -> (r: Option<bool>)
        ensures
            r == self.value,
    {
        self.value
    }

    /// The variable that holds the bit.
    pub fn get_variable(&self) -> (r: Variable)
        ensures
            r == self.variable,
    {
        self.variable
    }

    /// The value of the bit as a field element, where it is known.
    pub fn get_value_field(&self) -> (r: Option<Fr>)
        ensures
            opt_value(r) == opt_bit_value(self.value),
    {
        bit_to_field(self.value)
    }

    /// Allocates a variable that can only hold a bit.
    pub fn allocate(cs: &mut ConstraintSystem, value: Option<bool>) -> (r: Result<
        AllocatedBit,
        SynthesisError,
    >)
        ensures
            (final(cs)@, r) == bit_allocated(old(cs)@, value),
    {
        let variable = match cs.allocate("boolean", bit_to_field(value)) {
            Ok(variable) => variable,
            Err(e) => {
                return Err(e);
            },
        };
        let a = LinearCombination::zero().add_variable(Variable::one()).sub_variable(variable);
        let b = LinearCombination::zero().add_variable(variable);
        assert(a@ =~= seq![(Variable::spec_one(), 1int), (variable, fe(-1))]);
        assert(b@ =~= seq![(variable, 1int)]);
        cs.enforce("boolean constraint", a, b, LinearCombination::zero());
        Ok(AllocatedBit { variable, value })
    }

    /// Allocates a variable that can only hold a bit, and only a false one where
    /// `must_be_false` is true.
    pub fn alloc_conditionally(
        cs: &mut ConstraintSystem,
        value: Option<bool>,
        must_be_false: &AllocatedBit,
    ) -> (r: Result<AllocatedBit, SynthesisError>)
        ensures
            (final(cs)@, r) == bit_allocated_conditionally(
                old(cs)@,
                value,
                must_be_false.variable,
            ),
    {
        let variable = match cs.allocate("boolean", bit_to_field(value)) {
            Ok(variable) => variable,
            Err(e) => {
                return Err(e);
            },
        };
        let a = LinearCombination::zero().add_variable(Variable::one()).sub_variable(
            must_be_false.variable,
        ).sub_variable(variable);
        let b = LinearCombination::zero().add_variable(variable);
        assert(a@ =~= seq![
            (Variable::spec_one(), 1int),
            (must_be_false.variable, fe(-1)),
            (variable, fe(-1)),
        ]);
        assert(b@ =~= seq![(variable, 1int)]);
        cs.enforce("boolean constraint", a, b, LinearCombination::zero());
        Ok(AllocatedBit { variable, value })
    }

    /// Allocates the conjunction of two bits.
    pub fn and(cs: &mut ConstraintSystem, a: &AllocatedBit, b: &AllocatedBit) -> (r: Result<
        AllocatedBit,
        SynthesisError,
    >)
        ensures
            (final(cs)@, r) == and_allocated(old(cs)@, *a, *b),
    {
        let value = match (a.value, b.value) {
            (Some(x), Some(y)) => Some(x && y),
            _ => None,
        };
        let variable = match cs.allocate("and result", bit_to_field(value)) {
            Ok(variable) => variable,
            Err(e) => {
                return Err(e);
            },
        };
        let value = if cs.evaluates() {
            value
        } else {
            None
        };
        cs.enforce(
            "and constraint",
            LinearCombination::zero().add_variable(a.variable),
            LinearCombination::zero().add_variable(b.variable),
            LinearCombination::zero().add_variable(variable),
        );
        Ok(AllocatedBit { variable, value })
    }
}

/// The terms of a bit with a coefficient.
pub open spec fn boolean_terms(b: Boolean, one: Variable, coeff: int) -> Seq<Term> {
    match b {
        Boolean::Constant(c) => if c {
            seq![(one, coeff)]
        } else {
            Seq::empty()
        },
        Boolean::Is(v) => seq![(v.variable, coeff)],
        Boolean::Not(v) => seq![(one, coeff), (v.variable, fe(-coeff))],
    }
}

/// A bit of a circuit: an allocated one, the negation of one, or a constant.
#[derive(Clone, Copy, Debug, PartialEq, Eq, Structural)]
pub enum Boolean {
    Is(AllocatedBit),
    Not(AllocatedBit),
    Constant(bool),
}

impl Boolean {
    /// The value of the bit, where it is known.
    pub open spec fn value(self) -> Option<bool> {
        match self {
            Boolean::Constant(c) => Some(c),
            Boolean::Is(v) => v.value,
            Boolean::Not(v) => match v.value {
                Some(b) => Some(!b),
                None => None,
            },
        }
    }

    /// A constant bit.
    pub fn constant(b: bool) -> (r: Boolean)
        ensures
            r == Boolean::Constant(b),
    {
        Boolean::Constant(b)
    }

    /// The value of the bit, where it is known.
    pub fn get_value(&self) -> (r: Option<bool>)
        ensures
            r == self.value(),
    {
        match self {
            Boolean::Constant(c) => Some(*c),
            Boolean::Is(v) => v.value,
            Boolean::Not(v) => match v.value {
                Some(b) => Some(!b),
                None => None,
            },
        }
    }

    /// The value of the bit as a field element, where it is known.
    pub fn get_value_field(&self) -> (r: Option<Fr>)
        ensures
            opt_value(r) == opt_bit_value(self.value()),
    {
        bit_to_field(self.get_value())
    }

    /// The bit with a coefficient, as a linear combination.
    pub fn lc(&self, one: Variable, coeff: Fr) -> (r: LinearCombination)
        ensures
            r@ == boolean_terms(*self, one, coeff@),
    {
        match self {
            Boolean::Constant(c) => if *c {
                LinearCombination::zero().add_term(coeff, one)
            } else {
                LinearCombination::zero()
            },
            Boolean::Is(v) => LinearCombination::zero().add_term(coeff, v.variable),
            Boolean::Not(v) => LinearCombination::zero().add_term(coeff, one).sub_term(
                coeff,
                v.variable,
            ),
        }
    }
}

impl From<AllocatedBit> for Boolean {
    fn from(b: AllocatedBit) -> (r: Boolean) {
        Boolean::Is(b)
    }
}

impl vstd::std_specs::convert::FromSpecImpl<AllocatedBit> for Boolean {
    open spec fn obeys_from_spec() -> bool {
        true
    }

    open spec fn from_spec(b: AllocatedBit) -> Boolean {
        Boolean::Is(b)
    }
}

/// The bit of a number of weight `2^i`, where the number is known.
pub open spec fn opt_bit(value: Option<int>, i: int) -> Option<bool> {
    match value {
        Some(v) => Some(bit(v, i)),
        None => None,
    }
}

/// The name of the namespace of a bit.
pub open spec fn bit_name(i: int) -> Seq<char> {
    "bit "@ + decimal(i as nat)
}

/// The allocations of the `n` least significant bits of a number.
pub open spec fn bits_allocations(cs: SystemView, value: Option<int>, n: nat) -> Seq<
    AllocationView,
> {
    Seq::new(
        n,
        |i: int|
            cs.allocation(seq![bit_name(i), "boolean"@], opt_bit_value(opt_bit(value, i))),
    )
}

/// The constraints on the `n` least significant bits of a number.
pub open spec fn bits_constraints(cs: SystemView, n: nat) -> Seq<ConstraintView> {
    Seq::new(
        n,
        |i: int|
            boolean_constraint(cs, seq![bit_name(i), "boolean constraint"@], cs.fresh(i)),
    )
}

/// The `n` least significant bits of a number, as they are allocated.
pub open spec fn allocated_bits(cs: SystemView, value: Option<int>, n: nat) -> Seq<AllocatedBit> {
    Seq::new(n, |i: int| AllocatedBit { variable: cs.fresh(i), value: opt_bit(value, i) })
}

/// The outcome of the allocation of the `n` least significant bits of a number.
pub open spec fn bits_allocated(cs: SystemView, value: Option<int>, n: nat) -> (
    SystemView,
    Result<Seq<AllocatedBit>, SynthesisError>,
) {
    if n > 0 && cs.lacks(value) {
        (cs, Err(SynthesisError::AssignmentMissing))
    } else {
        (
            cs.grown(bits_allocations(cs, value, n), bits_constraints(cs, n)),
            Ok(allocated_bits(cs, value, n)),
        )
    }
}

/// The contents of a list, where there is one.
pub open spec fn listed<T>(r: Result<Vec<T>, SynthesisError>) -> Result<Seq<T>, SynthesisError> {
    match r {
        Ok(v) => Ok(v@),
        Err(e) => Err(e),
    }
}

/// The bits of a number, the most significant one of those that the field takes
/// first.
fn bits_of_value(value: Option<Fr>) -> (r: Vec<Option<bool>>)
    ensures
        r@ == Seq::new(NUM_BITS as nat, |j: int| opt_bit(opt_value(value), NUM_BITS - 1 - j)),
{
    let mut values: Vec<Option<bool>> = Vec::new();
    match value {
        Some(v) => {
            let field_char = repr_bits(Fr::char());
            let bits = repr_bits(v.into_repr());
            let mut found_one = false;
            proof {
                lemma_top_bits_of_modulus();
            }
            for i in 0..bits.len()
                invariant
                    bits@ == bits_be(v@),
                    field_char@ == bits_be(modulus()),
                    !bit(modulus(), 255),
                    bit(modulus(), 254),
                    found_one == (i > 1),
                    values@.len() == if i > 0 {
                        i - 1
                    } else {
                        0
                    },
                    forall|j: int| 0 <= j < values@.len() ==> #[trigger] values@[j] == Some(bits@[j + 1]),
            {
                found_one = found_one || field_char[i];
                if found_one {
                    values.push(Some(bits[i]));
                }
            }
        },
        None => {
            for i in 0..NUM_BITS
                invariant
                    values@.len() == i,
                    forall|j: int| 0 <= j < i ==> #[trigger] values@[j] == None::<bool>,
            {
                values.push(None);
            }
        },
    }
    values
}

/// Allocates the `n` least significant bits of a number, or all that the field
/// takes where `n` exceeds them, from the least significant one on.
pub fn field_into_allocated_bits_le_fixed(
    cs: &mut ConstraintSystem,
    value: Option<Fr>,
    bit_length: usize,
) -> (r: Result<Vec<AllocatedBit>, SynthesisError>)
    ensures
        (final(cs)@, listed(r)) == bits_allocated(
            old(cs)@,
            opt_value(value),
            if bit_length < NUM_BITS {
                bit_length as nat
            } else {
                NUM_BITS as nat
            },
        ),
{
    let values = bits_of_value(value);
    let n: usize = if bit_length < NUM_BITS {
        bit_length
    } else {
        NUM_BITS
    };
    let mut bits: Vec<AllocatedBit> = Vec::new();
    assert(cs@ =~= old(cs)@.grown(
        bits_allocations(old(cs)@, opt_value(value), 0),
        bits_constraints(old(cs)@, 0),
    ));
    for i in 0..n
        invariant
            n == if bit_length < NUM_BITS {
                bit_length
            } else {
                NUM_BITS
            },
            values@ == Seq::new(
                NUM_BITS as nat,
                |j: int| opt_bit(opt_value(value), NUM_BITS - 1 - j),
            ),
            i > 0 ==> !old(cs)@.lacks(opt_value(value)),
            cs@ == old(cs)@.grown(
                bits_allocations(old(cs)@, opt_value(value), i as nat),
                bits_constraints(old(cs)@, i as nat),
            ),
            bits@ == allocated_bits(old(cs)@, opt_value(value), i as nat),
    {
        let ghost before = cs@;
        let ghost v = opt_value(value);
        cs.push_namespace(numbered("bit ", i));
        let allocated = AllocatedBit::allocate(cs, values[NUM_BITS - 1 - i]);
        cs.pop_namespace();
        proof {
            lemma_bit_in_namespace(before, bit_name(i as int), opt_bit(v, i as int));
        }
        match allocated {
            Ok(b) => {
                bits.push(b);
                proof {
                    let o = old(cs)@;
                    assert(bits@ =~= allocated_bits(o, v, (i + 1) as nat));
                    assert(cs@.aux =~= o.grown(
                        bits_allocations(o, v, (i + 1) as nat),
                        bits_constraints(o, (i + 1) as nat),
                    ).aux);
                    assert(cs@.constraints =~= o.grown(
                        bits_allocations(o, v, (i + 1) as nat),
                        bits_constraints(o, (i + 1) as nat),
                    ).constraints);
                }
            },
            Err(e) => {
                assert(i == 0 && before =~= old(cs)@);
                return Err(e);
            },
        }
    }
    Ok(bits)
}

/// Allocates the bits of a number, from the least significant one on.
pub fn field_into_allocated_bits_le(cs: &mut ConstraintSystem, value: Option<Fr>) -> (r: Result<
    Vec<AllocatedBit>,
    SynthesisError,
>)
    ensures
        (final(cs)@, listed(r)) == bits_allocated(old(cs)@, opt_value(value), NUM_BITS as nat),
{
    field_into_allocated_bits_le_fixed(cs, value, NUM_BITS)
}

} // verus!
