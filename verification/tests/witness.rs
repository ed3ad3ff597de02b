use circuit_expression::boolean::{AllocatedBit, Boolean};
use circuit_expression::constraint_system::ConstraintSystem;
use circuit_expression::expression::Expression;
use circuit_expression::fr::Fr;
use circuit_expression::linear_combination::{LinearCombination, Variable};
use circuit_expression::num::AllocatedNum;

fn fr(n: u64) -> Fr {
    Fr::from_str(&n.to_string()).unwrap()
}

/// The value of a linear combination where the public inputs are 1, 300 and 45,
/// and the other variables hold what was recorded.
fn eval(cs: &ConstraintSystem, lc: &LinearCombination) -> Fr {
    let inputs = [1, 300, 45];
    let mut sum = Fr::zero();
    for (var, coeff) in lc.terms() {
        let mut term = match var {
            Variable::Input(i) => fr(inputs[i]),
            Variable::Aux(i) => cs.allocations()[i].value.unwrap(),
        };
        term.mul_assign(&coeff);
        sum.add_assign(&term);
    }
    sum
}

fn unsatisfied(cs: &ConstraintSystem) -> Vec<String> {
    let mut names = Vec::new();
    for constraint in cs.constraints() {
        let mut product = eval(cs, &constraint.a);
        product.mul_assign(&eval(cs, &constraint.b));
        if product != eval(cs, &constraint.c) {
            names.push(constraint.path.join("/"));
        }
    }
    names
}

fn input(i: usize, value: u64) -> Expression {
    let lc = LinearCombination::zero().add_variable(Variable::Input(i));
    Expression::new(Some(fr(value)), lc)
}

#[test]
fn gadgets_on_public_inputs_are_satisfied() {
    let mut cs = ConstraintSystem::new();
    let a = input(1, 300);
    let b = input(2, 45);
    let bit = AllocatedBit::allocate(&mut cs, Some(true)).unwrap();
    let same = Expression::equals(&mut cs, a.clone(), a.clone()).unwrap();
    let differ = Expression::equals(&mut cs, a.clone(), b.clone()).unwrap();
    assert_eq!(same.get_value(), Some(true));
    assert_eq!(differ.get_value(), Some(false));
    let chosen =
        Expression::conditionally_select(&mut cs, a.clone(), b.clone(), &Boolean::Not(bit));
    assert_eq!(chosen.unwrap().get_value(), Some(fr(45)));
    Expression::conditionally_reverse(&mut cs, a.clone(), b.clone(), &Boolean::from(bit)).unwrap();
    Expression::select_ifeq(&mut cs, a.clone(), b.clone(), a.clone(), b.clone()).unwrap();
    let difference = a - b;
    assert_eq!(difference.get_value(), Some(fr(255)));
    difference.into_bits_le(&mut cs).unwrap();
    difference.into_bits_le_strict(&mut cs).unwrap();
    difference.into_bits_le_fixed(&mut cs, 8).unwrap();
    difference.limit_number_of_bits(&mut cs, 8).unwrap();
    assert!(unsatisfied(&cs).is_empty());
    // The record itself knows no public input but the first.
    assert!(!cs.is_satisfied());
}

#[test]
fn an_earlier_constraint_that_fails_does_not_matter() {
    let mut cs = ConstraintSystem::new();
    let one = LinearCombination::zero().add_variable(Variable::one());
    cs.enforce("never", one.clone(), one, LinearCombination::zero());
    let x = AllocatedNum::allocate(&mut cs, Some(fr(300))).unwrap();
    Expression::equals(&mut cs, &x, input(1, 300)).unwrap();
    Expression::from(&x).limit_number_of_bits(&mut cs, 9).unwrap();
    Expression::from(&x).into_bits_le_strict(&mut cs).unwrap();
    assert_eq!(unsatisfied(&cs), vec!["never"]);
}

#[test]
fn too_many_bits_fail_on_public_inputs_too() {
    let mut cs = ConstraintSystem::new();
    input(1, 300).into_bits_le_fixed(&mut cs, 8).unwrap();
    assert_eq!(unsatisfied(&cs), vec!["unpacking constraint"]);
    let mut cs = ConstraintSystem::new();
    input(1, 300).limit_number_of_bits(&mut cs, 8).unwrap();
    assert_eq!(unsatisfied(&cs), vec!["repack top bits"]);
}
