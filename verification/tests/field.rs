//! Elements of the field and the labels of cells.
use halo2_proofs::arithmetic::FieldExt;
use halo2_proofs::pasta::group::ff::{Field, PrimeField};
use halo2_proofs::pasta::Fp;
use pow5_chip::field::Felt;
use pow5_chip::label::{
    add_input_name, initial_state_name, label_indexed, label_of_round, label_of_round_indexed,
};

fn felt(x: Fp) -> Felt {
    Felt::from_repr(x.to_repr()).unwrap()
}

fn small(n: u8) -> [u8; 32] {
    let mut repr = [0; 32];
    repr[0] = n;
    repr
}

#[test]
fn small_elements_are_little_endian() {
    assert_eq!(Felt::zero().to_repr(), small(0));
    assert_eq!(Felt::one().to_repr(), small(1));
    assert_eq!(felt(Fp::from(200)).to_repr(), small(200));
    assert_eq!(felt(Fp::from(0x0102)).to_repr()[..3], [2, 1, 0]);
}

#[test]
fn arithmetic_is_that_of_the_field() {
    let a = -Fp::from(3);
    let b = Fp::from(10);
    assert_eq!(felt(a).plus(&felt(b)).to_repr(), small(7));
    assert_eq!(felt(b).times(&felt(b)).to_repr(), small(100));
    assert_eq!(felt(a).times(&felt(a)).to_repr(), small(9));
    assert_eq!(felt(a).square().to_repr(), small(9));
    assert_eq!(felt(Fp::from(2)).pow(&[5, 0, 0, 0]).to_repr(), small(32));
    assert_eq!(felt(a).pow(&[2, 0, 0, 0]).to_repr(), small(9));
    assert_eq!(felt(a).pow(&[0, 0, 0, 0]).to_repr(), small(1));
    let x = Fp::from_u128(u128::MAX).square();
    assert_eq!(felt(x).pow(&[0, 1, 0, 0]), felt(x.pow(&[0, 1, 0, 0])));
    assert_eq!(felt(x).times(&felt(x.invert().unwrap())), Felt::one());
}

#[test]
fn encodings_of_the_order_and_above_are_refused() {
    let largest = (-Fp::one()).to_repr();
    let mut order = largest;
    order[0] += 1;
    assert_eq!(Felt::from_repr(largest).map(|x| x.to_repr()), Some(largest));
    assert!(Felt::from_repr(order).is_none());
    assert!(Felt::from_repr([0xff; 32]).is_none());
    assert_eq!(felt(-Fp::one()).plus(&Felt::one()), Felt::zero());
}

#[test]
fn labels_are_decimal() {
    assert_eq!(label_indexed("load state_", 0), "load state_0");
    assert_eq!(label_indexed("load state_", 10), "load state_10");
    assert_eq!(label_of_round(9, " partial_sbox"), "round_9 partial_sbox");
    assert_eq!(label_of_round_indexed(1203, " rc_", 45), "round_1203 rc_45");
    assert_eq!(label_indexed("", usize::MAX), format!("{}", usize::MAX));
    assert_eq!(initial_state_name("ConstantLength<8>"), "initial state for domain ConstantLength<8>");
    assert_eq!(add_input_name("ConstantLength<8>"), "add input for domain ConstantLength<8>");
}
