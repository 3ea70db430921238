use gkr_sumcheck::field::PrimeField;
use gkr_sumcheck::fr::Fr;

const MODULUS: [u64; 4] =
    [0xffffffff00000001, 0x53bda402fffe5bfe, 0x3339d80809a1d805, 0x73eda753299d7d48];

fn minus_one() -> Fr {
    let mut limbs = MODULUS;
    limbs[0] -= 1;
    Fr::from_limbs(limbs).unwrap()
}

fn small(x: Fr) -> u64 {
    let limbs = x.to_limbs();
    assert_eq!(&limbs[1..], &[0, 0, 0]);
    limbs[0]
}

#[test]
fn only_reduced_limbs_are_elements() {
    assert!(Fr::from_limbs(MODULUS).is_none());
    assert!(Fr::from_limbs([0, 0, 0, u64::MAX]).is_none());
    assert!(Fr::from_limbs([0, 0, 0x3339d80809a1d806, 0x73eda753299d7d48]).is_none());
    assert!(Fr::from_limbs([0, 0x53bda402fffe5bff, 0x3339d80809a1d805, 0x73eda753299d7d48]).is_none());
    let below = [u64::MAX, 0x53bda402fffe5bfd, 0x3339d80809a1d805, 0x73eda753299d7d48];
    assert_eq!(Fr::from_limbs(below).unwrap().to_limbs(), below);
    assert_eq!(minus_one().to_limbs()[0], 0xffffffff00000000);
}

#[test]
fn constants_and_embedded_integers() {
    assert_eq!(Fr::zero().to_limbs(), [0, 0, 0, 0]);
    assert_eq!(Fr::one().to_limbs(), [1, 0, 0, 0]);
    assert_eq!(Fr::from_u64(0).to_limbs(), [0, 0, 0, 0]);
    assert_eq!(Fr::from_u64(u64::MAX).to_limbs(), [u64::MAX, 0, 0, 0]);
}

#[test]
fn addition_and_subtraction_wrap_around() {
    assert_eq!(small(Fr::from_u64(20).add(Fr::from_u64(22))), 42);
    assert_eq!(small(minus_one().add(Fr::from_u64(2))), 1);
    assert_eq!(small(Fr::from_u64(22).sub(Fr::from_u64(20))), 2);
    assert_eq!(Fr::zero().sub(Fr::one()).to_limbs(), minus_one().to_limbs());
    assert_eq!(
        Fr::from_u64(u64::MAX).add(Fr::one()).to_limbs(),
        [0, 1, 0, 0],
    );
}

#[test]
fn negation() {
    assert_eq!(Fr::one().neg().to_limbs(), minus_one().to_limbs());
    assert_eq!(Fr::zero().neg().to_limbs(), [0, 0, 0, 0]);
    assert_eq!(small(Fr::from_u64(7).neg().add(Fr::from_u64(7))), 0);
}

#[test]
fn multiplication() {
    assert_eq!(small(Fr::from_u64(6).mul(Fr::from_u64(7))), 42);
    assert_eq!(small(minus_one().mul(minus_one())), 1);
    assert_eq!(
        Fr::from_u64(1 << 63).mul(Fr::from_u64(4)).to_limbs(),
        [0, 2, 0, 0],
    );
}

#[test]
fn every_element_but_zero_has_an_inverse() {
    assert!(Fr::zero().inverse().is_none());
    for n in [1u64, 2, 3, 1000, u64::MAX] {
        let x = Fr::from_u64(n);
        assert_eq!(small(x.mul(x.inverse().unwrap())), 1);
    }
    assert_eq!(
        minus_one().inverse().unwrap().to_limbs(),
        minus_one().to_limbs(),
    );
}

#[test]
fn equality_looks_at_all_limbs() {
    let x = Fr::from_limbs([1, 2, 3, 4]).unwrap();
    assert!(x.equals(Fr::from_limbs([1, 2, 3, 4]).unwrap()));
    for other in [[0, 2, 3, 4], [1, 0, 3, 4], [1, 2, 0, 4], [1, 2, 3, 0]] {
        assert!(!x.equals(Fr::from_limbs(other).unwrap()));
    }
}
