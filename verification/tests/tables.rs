use std::collections::BTreeMap;

use gkr_sumcheck::data_structures::{
    entries, DenseMultilinearExtension, SparseMultilinearExtension,
};
use gkr_sumcheck::field::PrimeField;
use gkr_sumcheck::folding::{fold_all, fold_in_place, round_values};
use gkr_sumcheck::fr::Fr;
use gkr_sumcheck::indices::{shifted_one, to_le_indices, usize_to_zxy};
use gkr_sumcheck::interpolation::interpolate_uni_poly;
use gkr_sumcheck::tables::{_old_precompute, initialise_phase_1, initialise_phase_2, precompute};

fn elem(n: i64) -> Fr {
    let x = Fr::from_u64(n.unsigned_abs());
    if n < 0 {
        x.neg()
    } else {
        x
    }
}

fn elems(ns: &[i64]) -> Vec<Fr> {
    ns.iter().map(|n| elem(*n)).collect()
}

fn limbs(xs: &[Fr]) -> Vec<[u64; 4]> {
    xs.iter().map(|x| x.to_limbs()).collect()
}

fn dense(ns: &[i64]) -> DenseMultilinearExtension<Fr> {
    DenseMultilinearExtension {
        evaluations: elems(ns),
        num_vars: ns.len().trailing_zeros() as usize,
    }
}

fn sparse(num_vars: usize, list: &[(usize, i64)]) -> SparseMultilinearExtension<Fr> {
    let evaluations: BTreeMap<usize, Fr> = list.iter().map(|(i, n)| (*i, elem(*n))).collect();
    SparseMultilinearExtension { evaluations, num_vars }
}

#[test]
fn le_indices_reverse_bits() {
    assert_eq!(to_le_indices(1), vec![0, 1]);
    assert_eq!(to_le_indices(2), vec![0, 2, 1, 3]);
    assert_eq!(to_le_indices(3), vec![0, 4, 2, 6, 1, 5, 3, 7]);
}

#[test]
fn le_indices_are_an_involution() {
    for v in 1..10 {
        let indices = to_le_indices(v);
        assert_eq!(indices.len(), 1 << v);
        for i in 0..indices.len() {
            assert_eq!(indices[indices[i]], i);
        }
    }
}

#[test]
fn indices_split_into_blocks() {
    assert_eq!(usize_to_zxy(0b101_110_011, 3), (0b101, 0b110, 0b011));
    assert_eq!(usize_to_zxy(0b1_0_1, 1), (1, 0, 1));
    for idx in 0..512 {
        let (z, x, y) = usize_to_zxy(idx, 3);
        assert_eq!(z * 64 + x * 8 + y, idx);
    }
}

#[test]
fn powers_of_two() {
    assert_eq!(shifted_one(0), 1);
    assert_eq!(shifted_one(10), 1024);
    assert_eq!(shifted_one(usize::BITS as usize - 1), 1 << (usize::BITS - 1));
}

#[test]
fn interpolation_through_small_nodes() {
    assert_eq!(interpolate_uni_poly(&elems(&[1, 4, 9]), elem(5)).to_limbs(), [36, 0, 0, 0]);
    assert_eq!(interpolate_uni_poly(&elems(&[1, 4, 9]), elem(2)).to_limbs(), [9, 0, 0, 0]);
    assert_eq!(interpolate_uni_poly(&elems(&[7]), elem(123)).to_limbs(), [7, 0, 0, 0]);
    assert_eq!(interpolate_uni_poly(&elems(&[3, 5]), elem(10)).to_limbs(), [23, 0, 0, 0]);
    assert_eq!(
        interpolate_uni_poly(&elems(&[0, 1, 8, 27]), elem(-2)).to_limbs(),
        elem(-8).to_limbs(),
    );
    assert_eq!(interpolate_uni_poly::<Fr>(&[], elem(3)).to_limbs(), [0, 0, 0, 0]);
}

#[test]
fn weights_by_big_endian_index() {
    let expected = limbs(&elems(&[2, -3, -4, 6]));
    assert_eq!(limbs(&precompute(&elems(&[2, 3]))), expected);
    assert_eq!(limbs(&precompute(&elems(&[5]))), limbs(&elems(&[-4, 5])));
}

#[test]
fn both_ways_to_compute_weights_agree() {
    for n in 1..6 {
        let point: Vec<Fr> = (0..n).map(|i| elem(3 * i + 2)).collect();
        assert_eq!(limbs(&precompute(&point)), limbs(&_old_precompute(&point)));
    }
}

#[test]
fn weights_at_the_empty_point() {
    assert_eq!(limbs(&precompute::<Fr>(&[])), vec![[1, 0, 0, 0]]);
    assert_eq!(limbs(&_old_precompute::<Fr>(&[])), vec![[0, 0, 0, 0]]);
}

#[test]
fn weights_sum_to_one() {
    let table = precompute(&elems(&[2, 30, -4, 17]));
    let total = table.iter().fold(Fr::zero(), |acc, x| acc.add(*x));
    assert_eq!(total.to_limbs(), [1, 0, 0, 0]);
}

#[test]
fn weights_at_a_corner_single_it_out() {
    // The corner (1, 0, 1) has the big-endian index 5.
    let table = precompute(&elems(&[1, 0, 1]));
    for (b, x) in table.iter().enumerate() {
        assert_eq!(x.to_limbs()[0], if b == 5 { 1 } else { 0 });
    }
}

#[test]
fn table_of_the_first_phase() {
    // One entry, at z = 1, x = 0, y = 1.
    let f1 = sparse(3, &[(5, 7)]);
    let f3 = dense(&[10, 20]);
    let table = initialise_phase_1(&f1, &f3, &elems(&[3]), &elems(&[5]), elem(2), elem(1));
    assert_eq!(limbs(&table), limbs(&elems(&[1540, 0])));
}

#[test]
fn table_of_the_second_phase() {
    let f1 = sparse(3, &[(5, 7)]);
    let table = initialise_phase_2(
        &f1,
        &elems(&[3]),
        &elems(&[5]),
        &elems(&[4]),
        elem(2),
        elem(1),
    );
    assert_eq!(limbs(&table), limbs(&elems(&[0, -231])));
}

#[test]
fn phase_tables_in_two_variables_per_block() {
    // z = 01, x = 10, y = 11 in the order of the variables: little-endian blocks 2, 1 and 3.
    let f1 = sparse(6, &[(2 + 4 * (1 + 4 * 3), 5)]);
    let f3 = dense(&[1, 2, 3, 4]);
    let (g1, g2, u) = (elems(&[2, 3]), elems(&[7, 11]), elems(&[13, 17]));
    // The weight of z is (1 - 2) * 3 at g1 and (1 - 7) * 11 at g2.
    let h = initialise_phase_1(&f1, &f3, &g1, &g2, elem(1), elem(10));
    assert_eq!(limbs(&h), limbs(&elems(&[0, -663 * 5 * 4, 0, 0])));
    // The weight of x at u is 13 * (1 - 17).
    let a = initialise_phase_2(&f1, &g1, &g2, &u, elem(1), elem(10));
    assert_eq!(limbs(&a), limbs(&elems(&[0, 0, 0, -663 * -208 * 5])));
}

#[test]
fn dense_evaluation() {
    let f = dense(&[1, 2, 3, 4]);
    assert_eq!(f.num_vars(), 2);
    assert_eq!(limbs(&f.to_evaluations()), limbs(&elems(&[1, 2, 3, 4])));
    assert_eq!(f.evaluate(&elems(&[10, 100])).unwrap().to_limbs(), [211, 0, 0, 0]);
    assert!(f.evaluate(&elems(&[10])).is_none());
    assert!(f.evaluate(&elems(&[10, 100, 1])).is_none());
    let constant = dense(&[9]);
    assert_eq!(constant.evaluate(&[]).unwrap().to_limbs(), [9, 0, 0, 0]);
}

#[test]
fn sparse_evaluation() {
    let f = sparse(2, &[(3, 5)]);
    assert_eq!(f.evaluate(&elems(&[10, 100])).unwrap().to_limbs(), [5000, 0, 0, 0]);
    assert!(f.evaluate(&elems(&[10])).is_none());
    assert_eq!(sparse(2, &[]).evaluate(&elems(&[10, 100])).unwrap().to_limbs(), [0, 0, 0, 0]);
    assert_eq!(sparse(0, &[(0, 4)]).evaluate(&[]).unwrap().to_limbs(), [4, 0, 0, 0]);
    let g = sparse(3, &[(0, 1), (1, 2), (6, 3)]);
    // (1 - a) (1 - b) (1 - c) + 2 a (1 - b) (1 - c) + 3 (1 - a) b c at (2, 3, 5)
    assert_eq!(g.evaluate(&elems(&[2, 3, 5])).unwrap().to_limbs(), elem(-21).to_limbs());
}

#[test]
fn polynomials_take_their_values_at_the_corners() {
    let ns = [3, 1, 4, 1, 5, 9, 2, 6];
    let f = dense(&ns);
    let g = sparse(3, &[(0, 3), (1, 1), (2, 4), (3, 1), (4, 5), (5, 9), (6, 2), (7, 6)]);
    for (i, n) in ns.iter().enumerate() {
        let i = i as i64;
        let corner = elems(&[i & 1, (i >> 1) & 1, (i >> 2) & 1]);
        assert_eq!(f.evaluate(&corner).unwrap().to_limbs(), elem(*n).to_limbs());
        assert_eq!(g.evaluate(&corner).unwrap().to_limbs(), elem(*n).to_limbs());
    }
}

#[test]
fn entries_of_a_map() {
    let f = sparse(4, &[(9, 2), (3, 1)]);
    let list = entries(&f.evaluations);
    assert_eq!(list.iter().map(|e| e.0).collect::<Vec<usize>>(), vec![3, 9]);
    assert_eq!(list[0].1.to_limbs(), [1, 0, 0, 0]);
    assert_eq!(list[1].1.to_limbs(), [2, 0, 0, 0]);
}

#[test]
fn interpolation_gives_back_the_values_at_the_nodes() {
    let values = elems(&[31, -4, 15, 9, -26]);
    for (j, value) in values.iter().enumerate() {
        let at = interpolate_uni_poly(&values, elem(j as i64));
        assert_eq!(at.to_limbs(), value.to_limbs());
    }
}

#[test]
fn tables_of_a_first_factor_without_values_are_zero() {
    let zeros = |n: usize| vec![[0, 0, 0, 0]; n];
    let f3 = dense(&[1, 2, 3, 4]);
    for num_vars in [1, 2, 5, 6, 9] {
        let f1 = sparse(num_vars, &[]);
        for (g1, g2) in [(elems(&[7]), elems(&[8, 9, 10])), (vec![], elems(&[5])), (elems(&[1, 2]), vec![])] {
            let h = initialise_phase_1(&f1, &f3, &g1, &g2, elem(3), elem(4));
            assert_eq!(limbs(&h), zeros(4));
        }
        let a = initialise_phase_2(&f1, &elems(&[7, 8, 9]), &[], &elems(&[1]), elem(3), elem(4));
        assert_eq!(limbs(&a), zeros(8));
    }
}

#[test]
fn table_of_the_first_phase_for_a_larger_block_z() {
    // z = 01 in the order of the variables, x = 1, y = 0.
    let f1 = sparse(4, &[(2 + 4, 5)]);
    let f3 = dense(&[10, 20]);
    let (g1, g2) = (elems(&[2, 3]), elems(&[7, 11]));
    // The weight of z is (1 - 2) * 3 at g1 and (1 - 7) * 11 at g2.
    let h = initialise_phase_1(&f1, &f3, &g1, &g2, elem(1), elem(10));
    assert_eq!(limbs(&h), limbs(&elems(&[0, -663 * 5 * 10])));
}

#[test]
fn folding_leaves_odd_entries_and_what_follows_the_used_part() {
    let mut table = elems(&[1, 2, 3, 4, 50, 60, 70]);
    let indices = to_le_indices(2);
    fold_in_place(&mut table, &indices, 2, 1, elem(10));
    assert_eq!(limbs(&table), limbs(&elems(&[11, 2, 13, 4, 50, 60, 70])));
    fold_in_place(&mut table, &indices, 2, 2, elem(100));
    assert_eq!(limbs(&table), limbs(&elems(&[211, 2, 13, 4, 50, 60, 70])));
    let mut tables = vec![elems(&[1, 2, 3]), elems(&[4, 6])];
    fold_all(&mut tables, &to_le_indices(1), 1, 1, elem(5));
    assert_eq!(limbs(&tables[0]), limbs(&elems(&[6, 2, 3])));
    assert_eq!(limbs(&tables[1]), limbs(&elems(&[14, 6])));
}

#[test]
fn round_values_do_not_tell_the_two_lists_apart() {
    let fs = vec![elems(&[1, 2, 3, 4, 99]), elems(&[5, 6, 7, 8])];
    let gs = vec![elems(&[2, 7, 1, 8]), elems(&[3, 1, 4, 1, 5])];
    let indices = to_le_indices(2);
    let values = round_values(&fs, &gs, &indices, 2, 1);
    // At 0: 1*2 + 3*1 + 5*3 + 7*4; at 1: 2*7 + 4*8 + 6*1 + 8*1; at 2: 3*12 + 5*15 - 7 - 9*2.
    assert_eq!(limbs(&values), limbs(&elems(&[48, 60, 86])));
    assert_eq!(limbs(&round_values(&gs, &fs, &indices, 2, 1)), limbs(&values));
}
