use ark_crypto_primitives::sponge::poseidon::{
    PoseidonConfig as ArkConfig, PoseidonSponge as ArkSponge,
};
use ark_crypto_primitives::sponge::CryptographicSponge;
use ark_ff::{BigInt, PrimeField as ArkPrimeField};
use gkr_sumcheck::field::PrimeField;
use gkr_sumcheck::fr::Fr;
use gkr_sumcheck::sponge::{
    test_sponge, Absorb, DuplexSpongeMode, PoseidonConfig, PoseidonSponge, RandomField,
};
use gkr_sumcheck::transcript::{draw_challenge, Transcript};

type ArkFr = ark_bls12_381::Fr;

fn elems(ns: &[u64]) -> Vec<Fr> {
    ns.iter().map(|n| Fr::from_u64(*n)).collect()
}

fn limbs(xs: &[Fr]) -> Vec<[u64; 4]> {
    xs.iter().map(|x| x.to_limbs()).collect()
}

fn fixed_sponge() -> PoseidonSponge<Fr> {
    PoseidonSponge::new(PoseidonConfig {
        full_rounds: 8,
        partial_rounds: 31,
        alpha: 17,
        ark: (0..39).map(|i| elems(&[5 * i + 1, 7 * i + 2, 11 * i + 3])).collect(),
        mds: vec![elems(&[1, 0, 1]), elems(&[1, 1, 0]), elems(&[0, 1, 1])],
        rate: 2,
        capacity: 1,
    })
}

fn ark_elems(ns: &[u64]) -> Vec<ArkFr> {
    ns.iter().map(|n| ArkFr::from(*n)).collect()
}

fn ark_sponge() -> ArkSponge<ArkFr> {
    ArkSponge::new(&ArkConfig::new(
        8,
        31,
        17,
        vec![ark_elems(&[1, 0, 1]), ark_elems(&[1, 1, 0]), ark_elems(&[0, 1, 1])],
        (0..39).map(|i| ark_elems(&[5 * i + 1, 7 * i + 2, 11 * i + 3])).collect(),
        2,
        1,
    ))
}

fn ark_limbs(xs: &[ArkFr]) -> Vec<[u64; 4]> {
    xs.iter().map(|x| x.into_bigint().0).collect()
}

#[test]
fn absorbing_and_squeezing_agree_with_arkworks() {
    let mut sponge = fixed_sponge();
    let mut ark = ark_sponge();
    for (input, n) in [(vec![1, 2, 3], 1usize), (vec![4], 3), (vec![], 2), (vec![5, 6], 0), (vec![7, 8, 9, 10, 11], 5)] {
        Fr::absorb(&mut sponge, &elems(&input));
        ark.absorb(&ark_elems(&input));
        assert_eq!(limbs(&sponge.state), ark_limbs(&ark.state));
        let out = Fr::squeeze_field_elements(&mut sponge, n);
        let ark_out: Vec<ArkFr> = ark.squeeze_field_elements(n);
        assert_eq!(limbs(&out), ark_limbs(&ark_out));
        assert_eq!(limbs(&sponge.state), ark_limbs(&ark.state));
    }
}

#[test]
fn modes_are_kept() {
    let mut sponge = fixed_sponge();
    Fr::absorb(&mut sponge, &elems(&[1]));
    assert!(matches!(sponge.mode, DuplexSpongeMode::Absorbing { next_absorb_index: 1 }));
    Fr::absorb(&mut sponge, &elems(&[1, 2]));
    assert!(matches!(sponge.mode, DuplexSpongeMode::Absorbing { next_absorb_index: 1 }));
    Fr::squeeze_field_elements(&mut sponge, 2);
    assert!(matches!(sponge.mode, DuplexSpongeMode::Squeezing { next_squeeze_index: 2 }));
    Fr::squeeze_field_elements(&mut sponge, 1);
    assert!(matches!(sponge.mode, DuplexSpongeMode::Squeezing { next_squeeze_index: 1 }));
    let state = limbs(&sponge.state);
    Fr::absorb(&mut sponge, &[]);
    assert!(matches!(sponge.mode, DuplexSpongeMode::Squeezing { next_squeeze_index: 1 }));
    assert_eq!(limbs(&sponge.state), state);
}

#[test]
fn copies_of_a_sponge_draw_the_same_challenges() {
    let mut sponge = fixed_sponge();
    let mut copy = sponge.clone();
    let message = elems(&[3, 1, 4]);
    let a = draw_challenge(&message, &mut sponge);
    let b = draw_challenge(&message, &mut copy);
    assert_eq!(a.to_limbs(), b.to_limbs());
    let c = draw_challenge(&message, &mut sponge);
    assert_ne!(a.to_limbs(), c.to_limbs());
    let mut ark = ark_sponge();
    ark.absorb(&ark_elems(&[3, 1, 4]));
    let expected: Vec<ArkFr> = ark.squeeze_field_elements(1);
    assert_eq!(a.to_limbs(), expected[0].into_bigint().0);
}

#[test]
fn other_messages_draw_other_challenges() {
    let mut sponge = fixed_sponge();
    let mut copy = sponge.clone();
    let a = draw_challenge(&elems(&[3, 1, 4]), &mut sponge);
    let b = draw_challenge(&elems(&[3, 1, 5]), &mut copy);
    assert_ne!(a.to_limbs(), b.to_limbs());
}

#[test]
fn a_transcript_records_messages_and_claim() {
    let mut transcript = Transcript::<Fr>::new();
    assert!(transcript.proof.values.is_empty());
    assert!(transcript.proof.claim.is_none());
    let mut sponge = fixed_sponge();
    let mut copy = sponge.clone();
    let r = transcript.update(&elems(&[3, 1, 4]), &mut sponge);
    assert_eq!(r.to_limbs(), draw_challenge(&elems(&[3, 1, 4]), &mut copy).to_limbs());
    transcript.set_claim(Fr::from_u64(8));
    assert_eq!(transcript.proof.values.len(), 1);
    assert_eq!(limbs(&transcript.proof.values[0]), limbs(&elems(&[3, 1, 4])));
    assert_eq!(transcript.proof.claim.unwrap().to_limbs(), [8, 0, 0, 0]);
    let copied = transcript.proof.clone();
    assert_eq!(limbs(&copied.values[0]), limbs(&elems(&[3, 1, 4])));
    assert_eq!(copied.claim.unwrap().to_limbs(), [8, 0, 0, 0]);
}

#[test]
fn the_sponge_for_tests_is_fresh() {
    let sponge = test_sponge::<Fr>();
    assert_eq!(limbs(&sponge.state), vec![[0, 0, 0, 0]; 3]);
    assert!(matches!(sponge.mode, DuplexSpongeMode::Absorbing { next_absorb_index: 0 }));
    assert_eq!(sponge.parameters.ark.len(), 39);
    assert!(sponge.parameters.ark.iter().all(|row| row.len() == 3));
    assert_eq!(limbs(&sponge.parameters.mds[0]), limbs(&elems(&[1, 0, 1])));
    assert_eq!(limbs(&sponge.parameters.mds[1]), limbs(&elems(&[1, 1, 0])));
    assert_eq!(limbs(&sponge.parameters.mds[2]), limbs(&elems(&[0, 1, 1])));
}

#[test]
fn samples_are_elements() {
    let xs = Fr::sample(20);
    assert_eq!(xs.len(), 20);
    for x in &xs {
        assert!(Fr::from_limbs(x.to_limbs()).is_some());
        assert_eq!(ArkFr::from(BigInt(x.to_limbs())).into_bigint().0, x.to_limbs());
    }
    assert_ne!(xs[0].to_limbs(), xs[1].to_limbs());
    assert!(Fr::sample(0).is_empty());
}
