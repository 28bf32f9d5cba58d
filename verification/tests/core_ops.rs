use jm_math::matrix::{Matrix, MatrixError};
use jm_math::perm::inverse_permutation;
use jm_math::vector::Vector;

fn fb(x: f64) -> u64 {
    x.to_bits()
}

fn bf(u: u64) -> f64 {
    f64::from_bits(u)
}

fn vecb(xs: &[f64]) -> Vec<u64> {
    xs.iter().map(|&x| x.to_bits()).collect()
}

#[test]
fn vector_add_sub() {
    let a = Vector::from(vecb(&[1.0, 2.5, -3.0]));
    let b = Vector::from(vecb(&[0.5, 0.25, 4.0]));
    let s = a.add(&b);
    assert_eq!(bf(s.AA()[0]), 1.5);
    assert_eq!(bf(s.AA()[1]), 2.75);
    assert_eq!(bf(s.AA()[2]), 1.0);
    let d = a.sub(&b);
    assert_eq!(bf(d.AA()[0]), 0.5);
    assert_eq!(bf(d.AA()[1]), 2.25);
    assert_eq!(bf(d.AA()[2]), -7.0);
}

#[test]
fn vector_dot_scale_div_neg() {
    let a = Vector::from(vecb(&[1.0, 2.0, 3.0]));
    let b = Vector::from(vecb(&[4.0, -5.0, 6.0]));
    assert_eq!(bf(a.dot(&b)), 4.0 - 10.0 + 18.0);
    let sc = a.scale(fb(2.0));
    assert_eq!(bf(sc.AA()[2]), 6.0);
    let dv = a.div_scalar(fb(4.0));
    assert_eq!(bf(dv.AA()[0]), 0.25);
    let ng = a.neg();
    assert_eq!(bf(ng.AA()[1]), -2.0);
}

#[test]
fn vector_l2_norm() {
    let a = Vector::from(vecb(&[3.0, 4.0]));
    assert_eq!(bf(a.l2_norm()), 5.0);
}

#[test]
fn vector_permutate_and_inverse() {
    // the rearrangement followed by its own inverse is the identity
    let v = Vector::from(vecb(&[0.0, 1.0, 2.0]));
    let perm: Vec<usize> = vec![1, 0, 2];
    let p = v.permutate(&perm);
    assert_eq!(bf(p.AA()[0]), 1.0);
    assert_eq!(bf(p.AA()[1]), 0.0);
    assert_eq!(bf(p.AA()[2]), 2.0);
    let inv = inverse_permutation(&perm);
    let back = p.permutate(&inv);
    assert_eq!(back.AA(), v.AA());

    let perm2: Vec<usize> = vec![3, 1, 0, 2];
    let w = Vector::from(vecb(&[9.0, 8.0, 7.0, 6.0]));
    let inv2 = inverse_permutation(&perm2);
    let round = w.permutate(&perm2).permutate(&inv2);
    assert_eq!(round.AA(), w.AA());
}

#[test]
fn matrix_multiply_exact() {
    // [[5,0,1],[0,2,1],[1,1,4]] times [1,2,3]
    let aa = vecb(&[5.0, 1.0, 2.0, 1.0, 1.0, 1.0, 4.0]);
    let ja: Vec<usize> = vec![0, 2, 1, 2, 0, 1, 2];
    let ia: Vec<usize> = vec![0, 2, 4, 7];
    let m = Matrix::from(aa, ja, ia);
    assert_eq!(m.num_rows(), 3);
    assert_eq!(m.num_cols(), 3);
    let x = Vector::from(vecb(&[1.0, 2.0, 3.0]));
    let y = m.multiply(&x).unwrap();
    assert_eq!(bf(y.AA()[0]), 8.0);
    assert_eq!(bf(y.AA()[1]), 7.0);
    assert_eq!(bf(y.AA()[2]), 15.0);
}

#[test]
fn matrix_multiply_dimension_mismatch() {
    let aa = vecb(&[1.0]);
    let ja: Vec<usize> = vec![0];
    let ia: Vec<usize> = vec![0, 1];
    let m = Matrix::from(aa, ja, ia);
    let x = Vector::from(vecb(&[1.0, 2.0]));
    assert_eq!(m.multiply(&x).unwrap_err(), MatrixError::DimensionMismatch);
}

#[test]
fn matrix_degree_neighbor_bandwidth() {
    let aa = vecb(&[5.0, 1.0, 2.0, 1.0, 1.0, 1.0, 4.0]);
    let ja: Vec<usize> = vec![0, 2, 1, 2, 0, 1, 2];
    let ia: Vec<usize> = vec![0, 2, 4, 7];
    let m = Matrix::from(aa, ja, ia);
    assert_eq!(m.degree(0), 1);
    assert_eq!(m.degree(1), 1);
    assert_eq!(m.degree(2), 2);
    assert_eq!(m.neighbor(2), vec![0, 1, 2]);
    assert_eq!(m.bandwidth(), 2);
}

#[test]
fn construct_sorts_and_mirrors() {
    // symmetric source: diagonal plus one upper off-diagonal, 1-based
    let data: Vec<(usize, usize, u64)> =
        vec![(1, 1, fb(2.0)), (2, 2, fb(3.0)), (1, 2, fb(5.0))];
    let m = Matrix::construct(data, true);
    assert_eq!(m.num_rows(), 2);
    assert_eq!(m.num_cols(), 2);
    assert_eq!(m.IA(), &vec![0usize, 2, 4]);
    assert_eq!(m.JA(), &vec![0usize, 1, 0, 1]);
    let vals: Vec<f64> = m.AA().iter().map(|&u| bf(u)).collect();
    assert_eq!(vals, vec![2.0, 5.0, 5.0, 3.0]);
}

#[test]
fn construct_symmetric_multiply_matches_transpose() {
    // a symmetric coordinate list: A and its transpose store the same CSR,
    // so the products agree bit for bit
    let data: Vec<(usize, usize, u64)> = vec![
        (1, 1, fb(4.0)),
        (2, 2, fb(5.0)),
        (3, 3, fb(6.0)),
        (1, 2, fb(1.0)),
        (2, 3, fb(0.5)),
    ];
    let transposed: Vec<(usize, usize, u64)> =
        data.iter().map(|&(r, c, v)| (c, r, v)).collect();
    let a = Matrix::construct(data, true);
    let at = Matrix::construct(transposed, true);
    assert_eq!(a.AA(), at.AA());
    assert_eq!(a.JA(), at.JA());
    assert_eq!(a.IA(), at.IA());
    let v = Vector::from(vecb(&[0.25, -2.0, 7.5]));
    let p1 = a.multiply(&v).unwrap();
    let p2 = at.multiply(&v).unwrap();
    assert_eq!(p1.AA(), p2.AA());
}

#[test]
fn rcm_permute_preserves_values_and_bandwidth() {
    // an arrow-shaped pattern whose bandwidth the reordering reduces
    let n = 7usize;
    let mut trips: Vec<(usize, usize, u64)> = Vec::new();
    for i in 1..=n {
        trips.push((i, i, fb(i as f64)));
    }
    for i in 2..=n {
        trips.push((1, i, fb(0.5)));
    }
    let a = Matrix::construct(trips, true);
    let bw0 = a.bandwidth();
    let mut vals0: Vec<u64> = a.AA().clone();
    let perm = a.RCM();
    assert!(perm.iter().all(|&p| p != usize::MAX));
    let p = a.permutate_par(&perm);
    let bw1 = p.bandwidth();
    assert!(bw1 <= bw0);
    let mut vals1: Vec<u64> = p.AA().clone();
    vals0.sort();
    vals1.sort();
    assert_eq!(vals0, vals1);
}

#[test]
fn rcm_is_permutation_on_connected_graph() {
    let aa = vecb(&[2.0, 1.0, 1.0, 2.0, 1.0, 1.0, 2.0]);
    let ja: Vec<usize> = vec![0, 1, 0, 1, 2, 1, 2];
    let ia: Vec<usize> = vec![0, 2, 5, 7];
    let m = Matrix::from(aa, ja, ia);
    let mut perm = m.RCM();
    assert_eq!(perm.len(), 3);
    perm.sort();
    assert_eq!(perm, vec![0, 1, 2]);
}
