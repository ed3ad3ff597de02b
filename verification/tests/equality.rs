use circuit_expression::boolean::{AllocatedBit, Boolean};
use circuit_expression::constraint_system::ConstraintSystem;
use circuit_expression::expression::Expression;
use circuit_expression::fr::Fr;
use circuit_expression::num::{AllocatedNum, Num};

fn within<R>(
    cs: &mut ConstraintSystem,
    name: &str,
    f: impl FnOnce(&mut ConstraintSystem) -> R,
) -> R {
    cs.push_namespace(name.to_string());
    let r = f(cs);
    cs.pop_namespace();
    r
}

#[test]
fn test_lc_equals() {
    let mut cs = ConstraintSystem::new();
    let bit = within(&mut cs, "true", |cs| AllocatedBit::allocate(cs, Some(true))).unwrap();
    let one = within(&mut cs, "one", |cs| {
        AllocatedNum::allocate(cs, Some(Fr::one()))
    })
    .unwrap();
    let b_true_const = Boolean::constant(true);
    let one_const = Expression::constant(Fr::one());

    let a = within(&mut cs, "a", |cs| {
        AllocatedNum::allocate(cs, Some(Fr::from_str("10").unwrap()))
    })
    .unwrap();
    let b = within(&mut cs, "b", |cs| {
        AllocatedNum::allocate(cs, Some(Fr::from_str("12").unwrap()))
    })
    .unwrap();
    let c = within(&mut cs, "c", |cs| {
        AllocatedNum::allocate(cs, Some(Fr::from_str("10").unwrap()))
    })
    .unwrap();

    let d = Num::zero();
    let d = d.add_number_with_coeff(&one, Fr::from_str("10").unwrap());

    let not_eq = within(&mut cs, "not_eq", |cs| Expression::equals(cs, &a, &b)).unwrap();
    let not_eq2 = within(&mut cs, "eq a bit_true", |cs| {
        Expression::equals(cs, &bit, &a)
    })
    .unwrap();

    let eq = within(&mut cs, "eq", |cs| Expression::equals(cs, &a, &c)).unwrap();
    let eq2 = within(&mut cs, "eq a d", |cs| Expression::equals(cs, &a, &d)).unwrap();
    let eq3 = within(&mut cs, "eq one bit_true", |cs| {
        Expression::equals(cs, &bit, &one)
    })
    .unwrap();
    let eq4 = within(&mut cs, "eq one_const b_true_const", |cs| {
        Expression::equals(
            cs,
            Expression::boolean(b_true_const),
            Expression::constant(Fr::one()),
        )
    })
    .unwrap();
    assert_eq!(one_const.get_value(), Some(Fr::one()));

    let err = cs.which_is_unsatisfied();
    if err.is_some() {
        panic!("ERROR satisfying in {}", err.unwrap());
    }
    assert!(cs.is_satisfied());
    assert_eq!(cs.num_constraints(), 6 * 3 + 1);

    assert_eq!(not_eq.get_value().unwrap(), false);
    assert_eq!(not_eq2.get_value().unwrap(), false);
    assert_eq!(eq.get_value().unwrap(), true);
    assert_eq!(eq2.get_value().unwrap(), true);
    assert_eq!(eq3.get_value().unwrap(), true);
    assert_eq!(eq4.get_value().unwrap(), true);
}
