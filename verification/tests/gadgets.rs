use circuit_expression::boolean::{AllocatedBit, Boolean};
use circuit_expression::constraint_system::{ConstraintSystem, SynthesisError};
use circuit_expression::expression::Expression;
use circuit_expression::fr::{Fr, NUM_BITS};
use circuit_expression::linear_combination::{LinearCombination, Variable};
use circuit_expression::num::{AllocatedNum, Num};

fn fr(s: &str) -> Fr {
    Fr::from_str(s).unwrap()
}

fn num(cs: &mut ConstraintSystem, n: u64) -> AllocatedNum {
    AllocatedNum::allocate(cs, Some(fr(&n.to_string()))).unwrap()
}

fn unknown() -> Expression {
    Expression::new(None, LinearCombination::zero())
}

fn values(bits: &[Boolean]) -> Vec<bool> {
    bits.iter().map(|b| b.get_value().unwrap()).collect()
}

fn paths(cs: &ConstraintSystem) -> Vec<String> {
    cs.constraints().iter().map(|c| c.path.join("/")).collect()
}

#[test]
fn constants_have_their_values() {
    let seven = Expression::u64(7);
    assert_eq!(seven.get_value(), Some(fr("7")));
    assert_eq!(seven.lc().terms(), vec![(Variable::one(), fr("7"))]);
    let most = Expression::u64(u64::MAX);
    assert_eq!(most.get_value(), Some(fr("18446744073709551615")));
    let constant = Expression::constant(fr("8"));
    assert_eq!(constant.lc().terms(), vec![(Variable::one(), fr("8"))]);
    assert_eq!(Expression::u64(0).get_value(), Some(Fr::zero()));
}

#[test]
fn parts_make_an_expression() {
    let lc = LinearCombination::zero().add_term(fr("2"), Variable::Aux(3));
    let e = Expression::new(Some(fr("9")), lc);
    assert_eq!(e.get_value(), Some(fr("9")));
    assert_eq!(e.lc().terms(), vec![(Variable::Aux(3), fr("2"))]);
    let copy = e.clone();
    assert_eq!(copy.get_value(), e.get_value());
    assert_eq!(copy.lc().terms(), e.lc().terms());
}

#[test]
fn bits_are_expressions() {
    let mut cs = ConstraintSystem::new();
    let bit = AllocatedBit::allocate(&mut cs, Some(true)).unwrap();
    let is = Expression::boolean(Boolean::from(bit));
    let not = Expression::boolean(Boolean::Not(bit));
    let no = Expression::boolean(Boolean::constant(false));
    assert_eq!(is.get_value(), Some(Fr::one()));
    assert_eq!(not.get_value(), Some(Fr::zero()));
    assert_eq!(no.get_value(), Some(Fr::zero()));
    assert!(no.lc().terms().is_empty());
    assert_eq!(cs.eval(&is.lc()), Some(Fr::one()));
    assert_eq!(cs.eval(&not.lc()), Some(Fr::zero()));
    let from = Expression::from(&bit);
    assert_eq!(from.lc().terms(), vec![(bit.get_variable(), Fr::one())]);
}

#[test]
fn little_endian_bits_are_packed() {
    let mut cs = ConstraintSystem::new();
    let bit = AllocatedBit::allocate(&mut cs, Some(true)).unwrap();
    let bits = [
        Boolean::constant(true),
        Boolean::Not(bit),
        Boolean::from(bit),
        Boolean::constant(true),
    ];
    let e = Expression::le_bits(&bits);
    assert_eq!(e.get_value(), Some(fr("13")));
    assert_eq!(cs.eval(&e.lc()), Some(fr("13")));
    assert_eq!(Expression::le_bits(&[]).get_value(), Some(Fr::zero()));
    let open = [
        Boolean::constant(true),
        Boolean::Is(AllocatedBit { variable: Variable::Aux(0), value: None }),
    ];
    assert_eq!(Expression::le_bits(&open).get_value(), None);
}

#[test]
fn sums_and_differences_of_expressions() {
    let mut cs = ConstraintSystem::new();
    let x = num(&mut cs, 30);
    let y = Num::zero().add_number_with_coeff(&x, fr("2"));
    let sum = Expression::u64(5) + &x;
    assert_eq!(sum.get_value(), Some(fr("35")));
    assert_eq!(cs.eval(&sum.lc()), Some(fr("35")));
    let more = sum.clone() + &y;
    assert_eq!(more.get_value(), Some(fr("95")));
    let back = more - &y;
    assert_eq!(back.get_value(), sum.get_value());
    assert_eq!(cs.eval(&back.lc()), Some(fr("35")));
    let mut negative = Fr::zero();
    negative.sub_assign(&fr("25"));
    let less = Expression::u64(5) - Expression::from(&x);
    assert_eq!(less.get_value(), Some(negative));
    assert_eq!(cs.eval(&less.lc()), Some(negative));
    assert_eq!((Expression::u64(1) + unknown()).get_value(), None);
    assert_eq!((unknown() - Expression::u64(1)).get_value(), None);
}

#[test]
fn comparison_records_its_constraints() {
    let mut cs = ConstraintSystem::new();
    cs.push_namespace("outer".to_string());
    let r = Expression::equals(&mut cs, Expression::u64(3), Expression::u64(4)).unwrap();
    cs.pop_namespace();
    assert_eq!(r.get_value(), Some(false));
    assert_eq!(
        paths(&cs),
        vec![
            "outer/r/boolean constraint",
            "outer/0 = (a - b) * r",
            "outer/(a - b) * x == r - 1",
        ]
    );
    let names: Vec<String> = cs.allocations().iter().map(|a| a.path.join("/")).collect();
    assert_eq!(names, vec!["outer/r/boolean", "outer/x/num"]);
    // (3 - 4) * x = -1
    assert_eq!(cs.allocations()[1].value, Some(Fr::one()));
    assert_eq!(cs.value_of(r.get_variable()), Some(Fr::zero()));
    assert!(cs.is_satisfied());
}

#[test]
fn comparison_tells_a_false_value_apart() {
    // The expression claims to be three and is four.
    let lc = LinearCombination::zero().add_term(fr("4"), Variable::one());
    let claim = Expression::new(Some(fr("3")), lc);
    let mut cs = ConstraintSystem::new();
    let r = Expression::equals(&mut cs, claim, Expression::u64(3)).unwrap();
    assert_eq!(r.get_value(), Some(true));
    assert!(!cs.is_satisfied());
    assert_eq!(
        cs.which_is_unsatisfied(),
        Some("0 = (a - b) * r".to_string())
    );
}

#[test]
fn selection_follows_the_condition() {
    let mut cs = ConstraintSystem::new();
    let a = num(&mut cs, 10);
    let yes = AllocatedBit::allocate(&mut cs, Some(true)).unwrap();
    for (condition, expected) in vec![
        (Boolean::from(yes), "10"),
        (Boolean::Not(yes), "0"),
        (Boolean::constant(true), "10"),
        (Boolean::constant(false), "0"),
    ] {
        let r = Expression::conditionally_select(&mut cs, &a, Expression::u64(0), &condition);
        let r = r.unwrap();
        assert_eq!(r.get_value(), Some(fr(expected)));
        assert_eq!(cs.value_of(r.get_variable()), Some(fr(expected)));
    }
    assert!(cs.is_satisfied());
    assert_eq!(cs.num_constraints(), 1 + 4);
}

#[test]
fn selection_needs_the_chosen_value_only() {
    let mut cs = ConstraintSystem::new();
    let r = Expression::conditionally_select(
        &mut cs,
        Expression::u64(4),
        unknown(),
        &Boolean::constant(true),
    );
    assert_eq!(r.unwrap().get_value(), Some(fr("4")));
    let r = Expression::conditionally_select(
        &mut cs,
        Expression::u64(4),
        unknown(),
        &Boolean::constant(false),
    );
    assert!(matches!(r, Err(SynthesisError::AssignmentMissing)));
    assert_eq!(cs.num_constraints(), 1);
}

#[test]
fn reversal_follows_the_condition() {
    let mut cs = ConstraintSystem::new();
    let a = num(&mut cs, 10);
    let b = num(&mut cs, 20);
    let yes = AllocatedBit::allocate(&mut cs, Some(true)).unwrap();
    let (c, d) = Expression::conditionally_reverse(&mut cs, &a, &b, &Boolean::from(yes)).unwrap();
    assert_eq!(c.get_value(), Some(fr("20")));
    assert_eq!(d.get_value(), Some(fr("10")));
    let (c, d) = Expression::conditionally_reverse(&mut cs, &a, &b, &Boolean::Not(yes)).unwrap();
    assert_eq!(c.get_value(), Some(fr("10")));
    assert_eq!(d.get_value(), Some(fr("20")));
    assert!(cs.is_satisfied());
    assert_eq!(cs.num_constraints(), 1 + 4);
}

#[test]
fn a_reversal_that_fails_halfway_keeps_its_first_half() {
    let mut cs = ConstraintSystem::new();
    let r = Expression::conditionally_reverse(
        &mut cs,
        Expression::u64(1),
        unknown(),
        &Boolean::constant(false),
    );
    assert!(matches!(r, Err(SynthesisError::AssignmentMissing)));
    assert_eq!(paths(&cs), vec!["first conditional reversal"]);
    let r = Expression::conditionally_reverse(
        &mut cs,
        Expression::u64(1),
        unknown(),
        &Boolean::constant(true),
    );
    assert!(matches!(r, Err(SynthesisError::AssignmentMissing)));
    assert_eq!(cs.num_constraints(), 1);
}

#[test]
fn selection_by_comparison() {
    let mut cs = ConstraintSystem::new();
    let a = num(&mut cs, 10);
    let b = num(&mut cs, 12);
    let x = Expression::u64(100);
    let y = Expression::u64(200);
    let differ = Expression::select_ifeq(&mut cs, &a, &b, x.clone(), y.clone()).unwrap();
    let same = Expression::select_ifeq(&mut cs, &a, &a, x, y).unwrap();
    assert_eq!(differ.get_value(), Some(fr("200")));
    assert_eq!(same.get_value(), Some(fr("100")));
    assert!(cs.is_satisfied());
    assert_eq!(
        paths(&cs)[..4].to_vec(),
        vec![
            "eq/r/boolean constraint",
            "eq/0 = (a - b) * r",
            "eq/(a - b) * x == r - 1",
            "select/conditional select constraint",
        ]
    );
}

#[test]
fn all_bits_of_an_expression() {
    let mut cs = ConstraintSystem::new();
    let a = num(&mut cs, 0b1011);
    let bits = Expression::from(&a).into_bits_le(&mut cs).unwrap();
    assert_eq!(bits.len(), NUM_BITS);
    let v = values(&bits);
    assert_eq!(&v[..5], &[true, true, false, true, false][..]);
    assert!(v[5..].iter().all(|b| !b));
    assert!(cs.is_satisfied());
    assert_eq!(cs.num_constraints(), NUM_BITS + 1);
    assert_eq!(paths(&cs)[12], "bit 12/boolean constraint");
    assert_eq!(paths(&cs)[NUM_BITS], "unpacking constraint");
    // Packed again they give the expression back.
    let packed = Expression::le_bits(&bits);
    assert_eq!(packed.get_value(), a.get_value());
    assert_eq!(cs.eval(&packed.lc()), a.get_value());
}

#[test]
fn a_fixed_number_of_bits() {
    let mut cs = ConstraintSystem::new();
    let a = num(&mut cs, 11);
    let e = Expression::from(&a);
    let bits = e.into_bits_le_fixed(&mut cs, 4).unwrap();
    assert_eq!(values(&bits), vec![true, true, false, true]);
    assert!(cs.is_satisfied());
    assert_eq!(cs.num_constraints(), 5);

    // One bit too few, and the constraints are not satisfied.
    let bits = e.into_bits_le_fixed(&mut cs, 3).unwrap();
    assert_eq!(values(&bits), vec![true, true, false]);
    assert_eq!(
        cs.which_is_unsatisfied(),
        Some("unpacking constraint".to_string())
    );
}

#[test]
fn no_more_bits_than_the_field_takes() {
    let mut cs = ConstraintSystem::new();
    let bits = Expression::u64(6).into_bits_le_fixed(&mut cs, 1000).unwrap();
    assert_eq!(bits.len(), NUM_BITS);
    let none = Expression::u64(0).into_bits_le_fixed(&mut cs, 0).unwrap();
    assert!(none.is_empty());
    assert!(cs.is_satisfied());
}

#[test]
fn strict_bits_of_small_and_great_numbers() {
    let mut minus_one = Fr::zero();
    minus_one.sub_assign(&Fr::one());
    for value in vec![Fr::zero(), fr("11"), fr("123456789012345678901234567890"), minus_one] {
        let mut cs = ConstraintSystem::new();
        let a = AllocatedNum::allocate(&mut cs, Some(value)).unwrap();
        let bits = Expression::from(&a).into_bits_le_strict(&mut cs).unwrap();
        assert_eq!(bits.len(), NUM_BITS);
        let limbs = value.into_repr();
        for (i, bit) in bits.iter().enumerate() {
            assert_eq!(bit.get_value(), Some(limbs[i / 64] >> (i % 64) & 1 == 1));
        }
        assert!(cs.is_satisfied());
        let packed = Expression::le_bits(&bits);
        assert_eq!(packed.get_value(), Some(value));
        assert_eq!(cs.eval(&packed.lc()), Some(value));
    }
}

#[test]
fn strict_bits_are_named_from_the_most_significant_one_on() {
    let mut cs = ConstraintSystem::new();
    let e = Expression::u64(1);
    let bits = e.into_bits_le_strict(&mut cs).unwrap();
    let names = paths(&cs);
    assert_eq!(names[0], "bit 0/boolean constraint");
    // The greatest representative begins with 111, then a zero.
    assert_eq!(names[2], "bit 2/boolean constraint");
    assert_eq!(names[3], "run ending at 3/and 1/and constraint");
    assert_eq!(names[4], "run ending at 3/and 2/and constraint");
    assert_eq!(names[5], "bit 3/boolean constraint");
    assert_eq!(names[names.len() - 1], "unpacking constraint");
    assert!(matches!(
        bits[NUM_BITS - 1],
        Boolean::Is(AllocatedBit { variable: Variable::Aux(0), .. })
    ));
}

#[test]
fn strict_bits_refuse_a_false_value() {
    // The expression claims to be three and is four.
    let lc = LinearCombination::zero().add_term(fr("4"), Variable::one());
    let claim = Expression::new(Some(fr("3")), lc);
    let mut cs = ConstraintSystem::new();
    claim.into_bits_le_strict(&mut cs).unwrap();
    assert_eq!(
        cs.which_is_unsatisfied(),
        Some("unpacking constraint".to_string())
    );
}

#[test]
fn a_limited_number_of_bits() {
    let mut cs = ConstraintSystem::new();
    let a = num(&mut cs, 200);
    let b = num(&mut cs, 100);
    let sum = Expression::from(&a) + &b;
    sum.limit_number_of_bits(&mut cs, 9).unwrap();
    assert!(cs.is_satisfied());
    assert_eq!(cs.num_constraints(), NUM_BITS + 2);
    assert_eq!(
        paths(&cs)[0],
        "unpack to limit number of bits/bit 0/boolean constraint"
    );
    assert_eq!(paths(&cs)[NUM_BITS + 1], "repack top bits");
}

#[test]
fn an_overflow_breaks_the_limit() {
    let mut cs = ConstraintSystem::new();
    let a = num(&mut cs, 200);
    let b = num(&mut cs, 100);
    let sum = Expression::from(&a) + &b;
    sum.limit_number_of_bits(&mut cs, 8).unwrap();
    assert_eq!(
        cs.which_is_unsatisfied(),
        Some("repack top bits".to_string())
    );

    let mut cs = ConstraintSystem::new();
    let a = num(&mut cs, 200);
    let b = num(&mut cs, 100);
    let difference = Expression::from(&b) - &a;
    difference.limit_number_of_bits(&mut cs, 8).unwrap();
    assert!(!cs.is_satisfied());
}

#[test]
fn the_whole_field_is_no_limit() {
    let mut minus_one = Fr::zero();
    minus_one.sub_assign(&Fr::one());
    let mut cs = ConstraintSystem::new();
    Expression::constant(minus_one)
        .limit_number_of_bits(&mut cs, NUM_BITS)
        .unwrap();
    assert!(cs.is_satisfied());
}

#[test]
fn a_missing_value_is_an_error() {
    let mut cs = ConstraintSystem::new();
    let e = unknown();
    let one = Expression::u64(1);
    let missing = SynthesisError::AssignmentMissing;
    assert!(matches!(
        AllocatedNum::allocate(&mut cs, None),
        Err(SynthesisError::AssignmentMissing)
    ));
    assert_eq!(AllocatedBit::allocate(&mut cs, None), Err(missing));
    assert_eq!(
        Expression::equals(&mut cs, e.clone(), one.clone()),
        Err(missing)
    );
    assert!(matches!(
        Expression::select_ifeq(&mut cs, one.clone(), e.clone(), one.clone(), one.clone()),
        Err(SynthesisError::AssignmentMissing)
    ));
    assert_eq!(e.into_bits_le(&mut cs), Err(missing));
    assert_eq!(e.into_bits_le_strict(&mut cs), Err(missing));
    assert_eq!(e.into_bits_le_fixed(&mut cs, 3), Err(missing));
    assert_eq!(e.limit_number_of_bits(&mut cs, 3), Err(missing));
    assert_eq!(cs.num_constraints(), 0);
    assert_eq!(cs.allocations().len(), 0);
    // No namespace is left open.
    AllocatedBit::allocate(&mut cs, Some(false)).unwrap();
    assert_eq!(paths(&cs), vec!["boolean constraint"]);
    assert!(e.into_bits_le_fixed(&mut cs, 0).unwrap().is_empty());
}

fn circuit(cs: &mut ConstraintSystem, n: Option<u64>) {
    let value = n.map(|n| fr(&n.to_string()));
    let a = AllocatedNum::allocate(cs, value).unwrap();
    let b = AllocatedBit::allocate(cs, n.map(|n| n > 5)).unwrap();
    let e = Expression::from(&a) + Expression::u64(3);
    Expression::equals(cs, &a, &b).unwrap();
    Expression::conditionally_select(cs, &a, e.clone(), &Boolean::from(b)).unwrap();
    Expression::conditionally_reverse(cs, &a, &b, &Boolean::Not(b)).unwrap();
    Expression::select_ifeq(cs, &a, &b, e.clone(), &a).unwrap();
    e.into_bits_le(cs).unwrap();
    e.into_bits_le_strict(cs).unwrap();
    e.into_bits_le_fixed(cs, 40).unwrap();
    e.limit_number_of_bits(cs, 40).unwrap();
}

#[test]
fn the_shape_does_not_depend_on_values() {
    let mut keys = ConstraintSystem::shape_only();
    circuit(&mut keys, None);
    assert!(!keys.evaluates());
    assert!(keys.allocations().iter().all(|a| a.value.is_none()));
    for n in vec![0, 9, 1 << 33] {
        let mut proof_of = ConstraintSystem::new();
        circuit(&mut proof_of, Some(n));
        assert!(proof_of.evaluates());
        assert!(proof_of.is_satisfied());
        assert_eq!(paths(&keys), paths(&proof_of));
        assert_eq!(keys.allocations().len(), proof_of.allocations().len());
        for (x, y) in keys.allocations().iter().zip(proof_of.allocations()) {
            assert_eq!(x.path, y.path);
        }
        for (x, y) in keys.constraints().iter().zip(proof_of.constraints()) {
            assert_eq!(x.a.terms(), y.a.terms());
            assert_eq!(x.b.terms(), y.b.terms());
            assert_eq!(x.c.terms(), y.c.terms());
        }
    }
}

#[test]
fn a_bit_that_must_be_false() {
    let mut cs = ConstraintSystem::new();
    let yes = AllocatedBit::allocate(&mut cs, Some(true)).unwrap();
    let no = AllocatedBit::allocate(&mut cs, Some(false)).unwrap();
    AllocatedBit::alloc_conditionally(&mut cs, Some(false), &yes).unwrap();
    AllocatedBit::alloc_conditionally(&mut cs, Some(true), &no).unwrap();
    let both = AllocatedBit::and(&mut cs, &yes, &no).unwrap();
    assert_eq!(both.get_value(), Some(false));
    let both = AllocatedBit::and(&mut cs, &yes, &yes).unwrap();
    assert_eq!(both.get_value(), Some(true));
    assert!(cs.is_satisfied());
    AllocatedBit::alloc_conditionally(&mut cs, Some(true), &yes).unwrap();
    assert!(!cs.is_satisfied());
}

#[test]
fn values_that_are_not_recorded_satisfy_nothing() {
    let mut cs = ConstraintSystem::new();
    let lc = LinearCombination::zero().add_variable(Variable::Aux(0));
    assert!(cs.eval(&lc).is_none());
    assert!(cs.value_of(Variable::Input(1)).is_none());
    assert_eq!(cs.value_of(Variable::one()), Some(Fr::one()));
    cs.push_namespace("a".to_string());
    cs.push_namespace("b".to_string());
    cs.enforce("open", lc, LinearCombination::zero(), LinearCombination::zero());
    assert_eq!(cs.which_is_unsatisfied(), Some("a/b/open".to_string()));
}

#[test]
fn a_number_with_bits_added() {
    let mut cs = ConstraintSystem::new();
    let bit = AllocatedBit::allocate(&mut cs, Some(true)).unwrap();
    let n = Num::zero()
        .add_bool_with_coeff(Variable::one(), &Boolean::from(bit), fr("6"))
        .add_bool_with_coeff(Variable::one(), &Boolean::Not(bit), fr("100"));
    assert_eq!(n.get_value(), Some(fr("6")));
    assert_eq!(cs.eval(&n.lc(fr("7"))), Some(fr("42")));
}

#[test]
fn bits_of_a_congruent_number_pack_to_the_same_element() {
    // Three and the order of the field, which together take no more bits.
    let mut limbs = Fr::char();
    limbs[0] += 3;
    let bits: Vec<Boolean> = (0..NUM_BITS)
        .map(|i| Boolean::constant(limbs[i / 64] >> (i % 64) & 1 == 1))
        .collect();
    let packed = Expression::le_bits(&bits);
    assert_eq!(packed.get_value(), Some(fr("3")));
    let cs = ConstraintSystem::new();
    assert_eq!(cs.eval(&packed.lc()), Some(fr("3")));
}
