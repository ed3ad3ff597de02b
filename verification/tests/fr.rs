use bellman_ce::pairing::bls12_381;
use bellman_ce::pairing::ff::{Field, PrimeField};
use circuit_expression::fr::{greatest_repr, repr_bits, Fr, NUM_BITS};

const ORDER: [u64; 4] = [
    0xffff_ffff_0000_0001,
    0x53bd_a402_fffe_5bfe,
    0x3339_d808_09a1_d805,
    0x73ed_a753_299d_7d48,
];

fn fr(s: &str) -> Fr {
    Fr::from_str(s).unwrap()
}

#[test]
fn one_is_not_zero() {
    assert!(!Fr::one().is_zero());
    assert!(Fr::zero().is_zero());
    assert!(fr("1") == Fr::one());
    assert!(fr("0") == Fr::zero());
    assert!(Fr::one() != Fr::zero());
}

#[test]
fn sums_and_differences_wrap_around_the_order() {
    let mut minus_one = Fr::zero();
    minus_one.sub_assign(&Fr::one());
    assert_eq!(
        minus_one.into_repr(),
        [ORDER[0] - 1, ORDER[1], ORDER[2], ORDER[3]]
    );
    minus_one.add_assign(&fr("6"));
    assert_eq!(minus_one.into_repr(), [5, 0, 0, 0]);
}

#[test]
fn products_and_doubles() {
    let mut x = fr("12");
    x.mul_assign(&fr("12"));
    assert_eq!(x.into_repr(), [144, 0, 0, 0]);
    x.double();
    assert_eq!(x.into_repr(), [288, 0, 0, 0]);

    let mut minus_one = Fr::zero();
    minus_one.sub_assign(&Fr::one());
    let mut square = minus_one;
    square.mul_assign(&minus_one);
    assert_eq!(square.into_repr(), [1, 0, 0, 0]);
    minus_one.double();
    assert_eq!(minus_one.into_repr()[0], ORDER[0] - 2);
}

#[test]
fn an_inverse_times_its_element_is_one() {
    assert!(Fr::zero().inverse().is_none());
    assert!(Fr::one().inverse().unwrap() == Fr::one());
    let seven = fr("7");
    let mut product = seven.inverse().unwrap();
    assert!(product != seven);
    product.mul_assign(&seven);
    assert!(product == Fr::one());
}

#[test]
fn decimal_digits_are_read() {
    assert_eq!(fr("18446744073709551617").into_repr(), [1, 1, 0, 0]);
    assert!(Fr::from_str("").is_none());
    assert!(Fr::from_str("01").is_none());
    assert!(Fr::from_str("12x").is_none());
    assert!(Fr::from_str("-1").is_none());
    // The order itself, plus two.
    let wrapped =
        fr("52435875175126190479447740508185965837690552500527637822603658699938581184515");
    assert_eq!(wrapped.into_repr(), [2, 0, 0, 0]);
}

#[test]
fn the_characteristic_is_the_order() {
    assert_eq!(Fr::char(), ORDER);
    assert_eq!(bls12_381::Fr::char().0, ORDER);
    assert_eq!(bls12_381::Fr::NUM_BITS as usize, NUM_BITS);
    assert_eq!(
        greatest_repr(),
        [ORDER[0] - 1, ORDER[1], ORDER[2], ORDER[3]]
    );
}

#[test]
fn bits_come_from_the_most_significant_one_on() {
    let bits = repr_bits([5, 0, 0, 1 << 63]);
    assert_eq!(bits.len(), 256);
    assert!(bits[0]);
    assert_eq!(&bits[1..253], &[false; 252][..]);
    assert_eq!(&bits[253..], &[true, false, true][..]);
}

#[test]
fn arithmetic_agrees_with_the_pairing_library() {
    let a = "3141592653589793238462643383279502884197169399375105820974944592307816406286";
    let b = "27182818284590452353602874713526624977572470936999595749669676277240766303535";
    let mut ours = fr(a);
    let mut theirs = bls12_381::Fr::from_str(a).unwrap();
    let other = bls12_381::Fr::from_str(b).unwrap();
    assert_eq!(ours.into_repr(), theirs.into_repr().0);
    ours.mul_assign(&fr(b));
    theirs.mul_assign(&other);
    assert_eq!(ours.into_repr(), theirs.into_repr().0);
    ours.add_assign(&fr(b));
    theirs.add_assign(&other);
    assert_eq!(ours.into_repr(), theirs.into_repr().0);
    ours.double();
    theirs.double();
    assert_eq!(ours.into_repr(), theirs.into_repr().0);
    assert_eq!(
        ours.inverse().unwrap().into_repr(),
        theirs.inverse().unwrap().into_repr().0
    );
}

#[test]
fn only_canonical_representatives_are_taken() {
    assert!(Fr::from_repr([5, 0, 0, 0]).unwrap() == fr("5"));
    assert_eq!(Fr::from_repr([1, 2, 3, 4]).unwrap().into_repr(), [1, 2, 3, 4]);
    assert!(Fr::from_repr(greatest_repr()).is_some());
    assert!(Fr::from_repr(ORDER).is_none());
    assert!(Fr::from_repr([u64::MAX; 4]).is_none());
}
