use circuit_expression::fr::Fr;
use circuit_expression::linear_combination::{LinearCombination, Variable};

fn fr(s: &str) -> Fr {
    Fr::from_str(s).unwrap()
}

fn minus(s: &str) -> Fr {
    let mut x = Fr::zero();
    x.sub_assign(&fr(s));
    x
}

#[test]
fn terms_keep_their_order() {
    let lc = LinearCombination::zero()
        .add_term(fr("3"), Variable::Aux(4))
        .sub_term(fr("2"), Variable::Input(1))
        .add_variable(Variable::one())
        .sub_variable(Variable::Aux(4));
    let expected = vec![
        (Variable::Aux(4), fr("3")),
        (Variable::Input(1), minus("2")),
        (Variable::Input(0), fr("1")),
        (Variable::Aux(4), minus("1")),
    ];
    assert_eq!(lc.terms(), expected);
    assert_eq!(lc.clone().terms(), expected);
    assert!(LinearCombination::zero().terms().is_empty());
}

#[test]
fn combinations_are_added_and_taken_away() {
    let a = LinearCombination::zero().add_term(fr("3"), Variable::Aux(0));
    let b = LinearCombination::zero()
        .add_term(fr("5"), Variable::Aux(1))
        .add_term(fr("7"), Variable::Aux(0));
    assert_eq!(
        a.clone().add_all(&b).terms(),
        vec![
            (Variable::Aux(0), fr("3")),
            (Variable::Aux(1), fr("5")),
            (Variable::Aux(0), fr("7")),
        ]
    );
    assert_eq!(
        a.clone().sub_all(&b).terms(),
        vec![
            (Variable::Aux(0), fr("3")),
            (Variable::Aux(1), minus("5")),
            (Variable::Aux(0), minus("7")),
        ]
    );
    assert_eq!(
        a.add_scaled(fr("10"), &b).terms(),
        vec![
            (Variable::Aux(0), fr("3")),
            (Variable::Aux(1), fr("50")),
            (Variable::Aux(0), fr("70")),
        ]
    );
}
